[package]
name = "keith_shareit"
version = "0.1.0"
edition = "2021"
publish = false

[dependencies]
anyhow = "1.0.104"
bytes = "1.12.1"
data-encoding = "2.11.1"
futures-buffered = "0.2.13"
iroh = { version = "1.4.1", default-features = false }
iroh-blobs = { version = "0.104.0", default-features = false }
iroh-mdns-address-lookup = { version = "0.6.1", default-features = false }
iroh-tickets = { version = "1.0.0", default-features = false }
n0-future = "0.3.2"
num_cpus = "1.17.0"
postcard = { version = "1.1.3", features = ["use-std"] }
rand = "0.10.3"
serde = { version = "1.0.229", features = ["derive"] }
tokio = { version = "1.54.1", features = ["full"] }
walkdir = "2.5.0"
