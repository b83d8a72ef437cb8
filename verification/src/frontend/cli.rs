//! The command line: sending from a directory, or receiving into one.

use std::path::PathBuf;
use vstd::prelude::*;

verus! {

/// Send a file or directory between two machines, using blake3 verified streaming.
#[derive(Debug)]
pub struct Args {
    pub command: Commands,
}

/// The two roles the program can take.
#[derive(Debug)]
pub enum Commands {
    /// Send files or directories.
    Send(SendArgs),
    /// Receive files or directories (also spelled `recv`).
    Receive(ReceiveArgs),
}

/// Arguments of `send`.
#[derive(Debug)]
pub struct SendArgs {
    /// Path of directory to browse and send files from.
    pub src_dir: PathBuf,
}

/// Arguments of `receive`.
#[derive(Debug)]
pub struct ReceiveArgs {
    /// The directory in which to copy downloads.
    pub dst_dir: PathBuf,
}

} // verus!
