//! The terminal user interface: its commands to the backend, its state
//! machine, the log pane and the library tree.

use std::path::PathBuf;
use vstd::prelude::*;

pub mod app;
pub mod cli;
pub mod log;
pub mod tree;
pub mod tui;

verus! {

/// Commands the user interface sends to the backend.
#[derive(Debug)]
pub enum TuiCommand {
    /// Share the first path (a file or directory below the second, the root
    /// being browsed).
    SyncPath(PathBuf, PathBuf),
    /// Stop the backend.
    Shutdown,
    /// A peer's ticket, typed or pasted by the user.
    TicketInput(String),
}

} // verus!
