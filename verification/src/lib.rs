//! A virtual, descriptor-based filesystem over blockchain account state.
//!
//! Sandboxed program code opens, reads, writes, seeks and closes "files"
//! through small integer descriptors; the backing store is a per-account
//! key/value map held by the current transaction, plus a handful of
//! synthetic files (account balance, account bytecode, the event log and
//! the transaction's input/output streams).

pub mod bcfs;
pub mod codec;
pub mod error;
pub mod file;
pub mod laws;
pub mod memchain;
pub mod path;
pub mod rpc;
pub mod state;
pub mod types;
