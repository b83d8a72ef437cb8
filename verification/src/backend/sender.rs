//! The sender side: what is sent to the receiver for each shared path, what
//! the sender loop does with each event, and how it closes the connection.

use std::path::PathBuf;
use vstd::prelude::*;

use crate::encoding::{lemma_hex_lower_len, spec_hex_lower};
use crate::frontend::TuiCommand;

verus! {

/// How a blob is to be read: as raw bytes, or as a sequence of hashes (a
/// collection).
#[derive(Debug, Clone, Copy, PartialEq, Eq, Structural)]
pub enum BlobFormat {
    Raw,
    HashSeq,
}

/// A blob's 32-byte BLAKE3 hash and its format.
#[derive(Debug, Clone, Copy)]
pub struct HashAndFormat {
    pub hash: [u8; 32],
    pub format: BlobFormat,
}

/// The command a sender sends to the receiver to start a transfer: the blob
/// to fetch, and the path (relative to the shared root) to export it to.
#[derive(Debug)]
pub struct SyncCommand {
    pub hash_and_format: HashAndFormat,
    pub path: PathBuf,
}

/// The first eight characters of the hash in lower-case hexadecimal (its
/// display form), followed by `...`.
pub fn shortened_hash(id: &[u8; 32]) -> (s: String)
    ensures
        s@ == spec_hex_lower(id@).take(8) + "..."@,
{
    let shown = hash_to_string(id);
    proof {
        lemma_hex_lower_len(id@);
    }
    shorten_display(&shown)
}

/// The display form of an `iroh_blobs::Hash` with these bytes:
/// `Hash::from_bytes` keeps the bytes, and its `Display` writes
/// `blake3::Hash::to_hex`, documented as the lower-case hexadecimal of the
/// 32 bytes.
#[verifier::external_body]
fn hash_to_string(id: &[u8; 32]) -> (s: String)
    ensures
        s@ == spec_hex_lower(id@),
{
    iroh_blobs::Hash::from_bytes(*id).to_string()
}

/// The first eight characters of a display form, followed by `...`.
pub(crate) fn shorten_display(shown: &String) -> (s: String)
    requires
        shown@.len() >= 8,
    ensures
        s@ == shown@.take(8) + "..."@,
{
    let head = shown.as_str().substring_char(0, 8);
    let mut s = String::new();
    s.append(head);
    s.append("...");
    s
}

/// What happened while the sender waited.
pub enum SenderEvent {
    /// The receiver closed the connection.
    ReceiverDisconnected,
    /// A command from the user interface (`None`: its channel is closed).
    Command(Option<TuiCommand>),
}

/// What the sender loop does next.
#[derive(Debug)]
pub enum SenderAction {
    /// Stop: the receiver is gone.
    StopDisconnected,
    /// Stop: the user interface asked for it, or is gone.
    StopShutdown,
    /// Import and announce the first path, relative to the second.
    Share(PathBuf, PathBuf),
    /// Nothing to do for this command.
    Ignore,
}

/// The decision of the sender loop for one event: a disconnected receiver
/// or a shutdown (or a closed command channel) stops the loop, a path to
/// share is shared, and any other command is ignored.
pub fn sender_step(event: SenderEvent) -> (action: SenderAction)
    ensures
        match event {
            SenderEvent::ReceiverDisconnected => action is StopDisconnected,
            SenderEvent::Command(Some(TuiCommand::SyncPath(full, root))) => action matches SenderAction::Share(f, r) && f == full && r == root,
            SenderEvent::Command(Some(TuiCommand::Shutdown)) => action is StopShutdown,
            SenderEvent::Command(None) => action is StopShutdown,
            SenderEvent::Command(Some(TuiCommand::TicketInput(_))) => action is Ignore,
        },
{
    match event {
        SenderEvent::ReceiverDisconnected => SenderAction::StopDisconnected,
        SenderEvent::Command(Some(TuiCommand::SyncPath(full, root))) => SenderAction::Share(full, root),
        SenderEvent::Command(Some(TuiCommand::Shutdown)) | SenderEvent::Command(None) => SenderAction::StopShutdown,
        SenderEvent::Command(Some(TuiCommand::TicketInput(_))) => SenderAction::Ignore,
    }
}

/// The application close code the sender uses when it stops.
pub const SENDER_CLOSE_CODE: u64 = 0;

/// The bytes of `graceful shutdown`, the reason the sender gives when it
/// closes the connection.
pub open spec fn graceful_reason_bytes() -> Seq<u8> {
    seq![
        103u8, 114u8, 97u8, 99u8, 101u8, 102u8, 117u8, 108u8, 32u8, 115u8, 104u8, 117u8, 116u8,
        100u8, 111u8, 119u8, 110u8,
    ]
}

/// The reason the sender gives when it closes the connection: the bytes of
/// `graceful shutdown`.
pub fn sender_close_reason() -> (r: Vec<u8>)
    ensures
        r@ == graceful_reason_bytes(),
{
    let r: Vec<u8> = vec![
        103u8, 114u8, 97u8, 99u8, 101u8, 102u8, 117u8, 108u8, 32u8, 115u8, 104u8, 117u8, 116u8,
        100u8, 111u8, 119u8, 110u8,
    ];
    assert(r@ =~= graceful_reason_bytes());
    r
}

/// Status line: the sender waits for the user's next choice.
pub const READY_MESSAGE: &'static str = "Sender ready for next user selection";

/// Status line: the receiver closed the connection.
pub const DISCONNECTED_MESSAGE: &'static str = "Receiver disconnected, feel free to quit";

/// Status line: the backend stops.
pub const SHUTDOWN_MESSAGE: &'static str = "Backend shutting down";

} // verus!
