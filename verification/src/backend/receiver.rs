//! The receiver side: what the receiver loop does with each event, when a
//! closed connection counts as the sender's graceful shutdown, and the
//! progress shown while a blob downloads.

use vstd::prelude::*;

use crate::backend::sender::{graceful_reason_bytes, SENDER_CLOSE_CODE};
use crate::frontend::TuiCommand;
use crate::text::{split_char, split_on};

verus! {

/// How a peer closed the connection at the application level: its code and
/// reason.
#[derive(Debug)]
pub struct ApplicationClose {
    pub code: u64,
    pub reason: Vec<u8>,
}

/// What happened while the receiver waited.
pub enum ReceiverEvent {
    /// The connection to the sender is closed.
    SenderDisconnected,
    /// A command from the user interface (`None`: its channel is closed).
    Command(Option<TuiCommand>),
    /// The sender opened a stream carrying a command.
    StreamAccepted,
    /// Accepting a stream failed; `Some` when the peer closed the connection
    /// at the application level.
    StreamFailed(Option<ApplicationClose>),
}

/// What the receiver loop does next.
#[derive(Debug, PartialEq, Eq, Structural)]
pub enum ReceiverAction {
    /// Return successfully without closing the connection.
    Finish,
    /// Leave the loop on the user's request and close the connection.
    Stop,
    /// Fail: a command the receiver does not support.
    Unsupported,
    /// Read the command from the stream and download what it names.
    ReadStream,
    /// Leave the loop because the sender shut down gracefully, and close the
    /// connection.
    SenderDone,
    /// Fail: the stream could not be accepted.
    StreamError,
}

/// The sender's graceful shutdown: close code zero and the reason
/// `graceful shutdown`.
pub open spec fn graceful_close(code: u64, reason: Seq<u8>) -> bool {
    code == 0 && reason == graceful_reason_bytes()
}

/// Whether a close by the peer is the sender's graceful shutdown.
pub fn is_graceful_close(code: u64, reason: &[u8]) -> (b: bool)
    ensures
        b == graceful_close(code, reason@),
{
    if code != 0 {
        return false;
    }
    let expected = crate::backend::sender::sender_close_reason();
    if reason.len() != expected.len() {
        return false;
    }
    for i in 0..reason.len()
        invariant
            reason.len() == expected.len(),
            expected@ == graceful_reason_bytes(),
            forall|k: int| 0 <= k < i ==> reason@[k] == expected@[k],
    {
        if reason[i] != expected[i] {
            return false;
        }
    }
    assert(reason@ =~= expected@);
    true
}

/// The decision of the receiver loop for one event: a closed connection
/// ends it successfully; a shutdown (or closed command channel) stops it;
/// any other command is an error; a new stream is read; a failed accept is
/// the end if the sender shut down gracefully, else an error.
pub fn receiver_step(event: &ReceiverEvent) -> (action: ReceiverAction)
    ensures
        action == match event {
            ReceiverEvent::SenderDisconnected => ReceiverAction::Finish,
            ReceiverEvent::Command(Some(TuiCommand::Shutdown)) => ReceiverAction::Stop,
            ReceiverEvent::Command(None) => ReceiverAction::Stop,
            ReceiverEvent::Command(Some(_)) => ReceiverAction::Unsupported,
            ReceiverEvent::StreamAccepted => ReceiverAction::ReadStream,
            ReceiverEvent::StreamFailed(Some(c)) => if graceful_close(c.code, c.reason@) {
                ReceiverAction::SenderDone
            } else {
                ReceiverAction::StreamError
            },
            ReceiverEvent::StreamFailed(None) => ReceiverAction::StreamError,
        },
{
    match event {
        ReceiverEvent::SenderDisconnected => ReceiverAction::Finish,
        ReceiverEvent::Command(Some(TuiCommand::Shutdown)) | ReceiverEvent::Command(None) => ReceiverAction::Stop,
        ReceiverEvent::Command(Some(_)) => ReceiverAction::Unsupported,
        ReceiverEvent::StreamAccepted => ReceiverAction::ReadStream,
        ReceiverEvent::StreamFailed(Some(c)) => {
            if is_graceful_close(c.code, c.reason.as_slice()) {
                ReceiverAction::SenderDone
            } else {
                ReceiverAction::StreamError
            }
        },
        ReceiverEvent::StreamFailed(None) => ReceiverAction::StreamError,
    }
}

/// The reason the receiver gives when it closes the connection itself.
pub const RECEIVER_CLOSE_REASON: &'static str = "shutdown";

/// The most bytes read for one command.
pub const MAX_COMMAND_BYTES: usize = 10000;

/// Law: the receiver recognises the sender's own close: the code and reason
/// the sender closes with are a graceful shutdown to the receiver.
pub proof fn sender_close_is_graceful()
    ensures
        graceful_close(SENDER_CLOSE_CODE, graceful_reason_bytes()),
{
}

// ---------------------------------------------------------------------------
// Download progress
// ---------------------------------------------------------------------------

/// The sum of the sizes.
pub open spec fn seq_sum(s: Seq<u64>) -> nat
    decreases s.len(),
{
    if s.len() == 0 {
        0
    } else {
        seq_sum(s.drop_last()) + (s.last() as nat)
    }
}

/// The total size of the blobs of a transfer. The sum must fit in a `u64`.
pub fn total_size(sizes: &Vec<u64>) -> (total: u64)
    requires
        seq_sum(sizes@) <= u64::MAX,
    ensures
        total == seq_sum(sizes@),
{
    let mut total: u64 = 0;
    for i in 0..sizes.len()
        invariant
            seq_sum(sizes@) <= u64::MAX,
            total == seq_sum(sizes@.take(i as int)),
    {
        assert(sizes@.take(i + 1).drop_last() =~= sizes@.take(i as int));
        proof {
            lemma_sum_prefix_le(sizes@, i + 1);
        }
        total = total + sizes[i];
    }
    assert(sizes@.take(sizes.len() as int) =~= sizes@);
    total
}

proof fn lemma_sum_prefix_le(s: Seq<u64>, k: int)
    requires
        0 <= k <= s.len(),
    ensures
        seq_sum(s.take(k)) <= seq_sum(s),
    decreases s.len(),
{
    if k < s.len() {
        assert(s.drop_last().take(k) =~= s.take(k));
        lemma_sum_prefix_le(s.drop_last(), k);
    } else {
        assert(s.take(k) =~= s);
    }
}

/// The percentage of `offset` in `total`, rounded down.
pub open spec fn percentage(offset: u64, total: u64) -> nat {
    ((100 * offset) / (total as int)) as nat
}

/// One progress report: the percentage is shown when it passed the next
/// checkpoint and the checkpoint is below 100, and then the checkpoint
/// moves up by one. Gives the percentage to show, if any, and the new
/// checkpoint. `total` must not be zero and `100 * offset` must fit.
pub fn progress_step(offset: u64, total: u64, next_checkpoint: u64) -> (r: (Option<u64>, u64))
    requires
        total > 0,
        100 * offset <= u64::MAX,
    ensures
        if percentage(offset, total) > next_checkpoint && next_checkpoint < 100 {
            r == (Some(percentage(offset, total) as u64), (next_checkpoint + 1) as u64)
        } else {
            r == (None::<u64>, next_checkpoint)
        },
{
    let pct = 100 * offset / total;
    if pct > next_checkpoint && next_checkpoint < 100 {
        (Some(pct), next_checkpoint + 1)
    } else {
        (None, next_checkpoint)
    }
}

/// Law: the checkpoint never passes 100 and moves by at most one per report.
pub proof fn progress_checkpoint_bounded(offset: u64, total: u64, next_checkpoint: u64)
    requires
        total > 0,
        100 * offset <= u64::MAX,
        next_checkpoint <= 100,
    ensures
        ({
            let after = if percentage(offset, total) > next_checkpoint && next_checkpoint < 100 {
                next_checkpoint + 1
            } else {
                next_checkpoint as int
            };
            next_checkpoint <= after <= 100 && after <= next_checkpoint + 1
        }),
{
}

/// The directory an export goes to: the first part of the first entry's
/// name, before any `/`.
pub fn export_label(name: &str) -> (label: String)
    ensures
        label@ == split_on(name@, '/')[0],
{
    let mut pieces = split_char(name, '/');
    pieces.swap_remove(0)
}

} // verus!
