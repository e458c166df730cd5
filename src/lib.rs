//! A shared-state synchronization server's protocol engine: a tagged value model, a
//! last-write-wins shared table, length-prefixed message framing, the per-connection
//! handshake state machine, and a registry that fans updates out to every other
//! authenticated connection through per-connection mailboxes. The operator console's
//! command-line parsing lives here too.
pub mod keyed;
pub mod text;
pub mod value;
pub mod table;
pub mod framing;
pub mod protocol;
pub mod hub;
pub mod command;
pub mod console;
