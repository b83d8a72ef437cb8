//! Verified core of a peer-to-peer media sharing tool: the decisions of the
//! sender and receiver loops, the terminal user interface state machine, log
//! wrapping and scrolling, path handling for imports and exports, and the
//! small text encodings shown to the user.

pub mod encoding;
pub mod external;
pub mod text;
pub mod frontend;
pub mod backend;
