//! The parsed command line, as plain values.
//!
//! Argument parsing is an external collaborator: the binary around the
//! library parses the process arguments and hands these values over.

use vstd::prelude::*;

verus! {

/// The chosen mode of the process.
pub enum Commands {
    /// Run the relay server, listening on `ip`.
    Server { ip: String },
    /// Run the client: connect to `connection` and chat as `user`.
    Client { user: String, connection: String },
}

/// The whole command line.
pub struct Cli {
    pub command: Commands,
}

} // verus!
