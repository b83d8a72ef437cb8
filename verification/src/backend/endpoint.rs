//! Finding and connecting to a peer: how a status message reaches the user,
//! the short form of an endpoint identifier, and the decisions taken while
//! peers are discovered.

use vstd::prelude::*;

use crate::backend::BackendEvent;
use crate::backend::sender::shorten_display;
use crate::encoding::{hex_lower, lemma_hex_lower_len, spec_hex_lower};
use crate::frontend::TuiCommand;

verus! {

/// The application protocol of the synchronisation channel.
pub const SYNC_ALPN: &'static str = "keith-shareit/1";

/// Where a status message goes.
#[derive(Debug)]
pub enum LogTarget {
    /// To the user interface, as an event.
    Frontend(BackendEvent),
    /// To the console.
    Console(String),
}

/// The sender shows its status in the user interface; the receiver prints it.
pub fn route_log(msg: String, is_sender: bool) -> (t: LogTarget)
    ensures
        is_sender ==> (t matches LogTarget::Frontend(BackendEvent::StatusUpdate(m)) && m == msg),
        !is_sender ==> (t matches LogTarget::Console(m) && m == msg),
{
    if is_sender {
        LogTarget::Frontend(BackendEvent::StatusUpdate(msg))
    } else {
        LogTarget::Console(msg)
    }
}

/// The first eight characters of an endpoint identifier's display form
/// (lower-case hexadecimal of its 32 bytes), followed by `...`.
pub fn shortened_id(id: &[u8; 32]) -> (s: String)
    ensures
        s@ == spec_hex_lower(id@).take(8) + "..."@,
{
    let shown = hex_lower(id.as_slice());
    proof {
        lemma_hex_lower_len(id@);
    }
    shorten_display(&shown)
}

/// What the discovery of peers reported.
#[derive(Debug, Clone, Copy, PartialEq, Eq, Structural)]
pub enum DiscoveryInput {
    /// A peer was discovered.
    Discovered,
    /// A peer's record expired.
    Expired,
    /// Anything else.
    Other,
    /// Discovery stopped without another event.
    StreamEnded,
}

/// What to do about a discovery event.
#[derive(Debug, Clone, Copy, PartialEq, Eq, Structural)]
pub enum DiscoveryAction {
    /// Connect to the discovered peer (the sender does).
    Connect,
    /// Wait for the discovered peer to connect (the receiver does).
    Accept,
    /// Report the expired identifier and go on.
    ReportExpired,
    /// Go on.
    Ignore,
    /// Fail: discovery ended without finding a peer.
    FailNoPeer,
}

/// The decision for one discovery event.
pub fn discovery_step(is_sender: bool, event: DiscoveryInput) -> (a: DiscoveryAction)
    ensures
        a == match event {
            DiscoveryInput::Discovered => if is_sender {
                DiscoveryAction::Connect
            } else {
                DiscoveryAction::Accept
            },
            DiscoveryInput::Expired => DiscoveryAction::ReportExpired,
            DiscoveryInput::Other => DiscoveryAction::Ignore,
            DiscoveryInput::StreamEnded => DiscoveryAction::FailNoPeer,
        },
{
    match event {
        DiscoveryInput::Discovered => if is_sender {
            DiscoveryAction::Connect
        } else {
            DiscoveryAction::Accept
        },
        DiscoveryInput::Expired => DiscoveryAction::ReportExpired,
        DiscoveryInput::Other => DiscoveryAction::Ignore,
        DiscoveryInput::StreamEnded => DiscoveryAction::FailNoPeer,
    }
}

/// A command that arrives while peers are discovered: a shutdown, or a
/// closed command channel, stops the search without a connection (`true`);
/// any other command is unsupported (`false`).
pub fn stops_discovery(cmd: &Option<TuiCommand>) -> (stop: bool)
    ensures
        stop <==> (cmd matches None || cmd matches Some(TuiCommand::Shutdown)),
{
    match cmd {
        None => true,
        Some(TuiCommand::Shutdown) => true,
        Some(_) => false,
    }
}

} // verus!
