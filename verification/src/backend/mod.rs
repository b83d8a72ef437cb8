//! The backend: the decisions of the sender and receiver loops, peer
//! discovery, keys, and the paths of imports and exports.

use vstd::prelude::*;

pub mod direct;
pub mod endpoint;
pub mod receiver;
pub mod secret;
pub mod sender;
pub mod store;
pub mod ticket;

verus! {

/// Events that the backend reports to the user interface.
#[derive(Debug, Clone)]
pub enum BackendEvent {
    /// A peer has been discovered on the network.
    _PeerDiscovered,
    /// A secure connection has been established with a peer.
    ConnectionSecured,
    /// A file download has started.
    _DownloadStarted,
    /// A file download has completed.
    _DownloadComplete,
    /// An update regarding the current status of an operation.
    StatusUpdate(String),
    /// A request for a ticket to initiate a file transfer.
    TicketRequest,
}

} // verus!
