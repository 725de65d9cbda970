//! A fine-grained reactive runtime: signals, memos and effects in an arena,
//! owned by a tree of scopes, with dynamic dependency tracking and a
//! glitch-free propagation scheduler. The host evaluates each computation when
//! the scheduler hands it out and reads other nodes through the runtime.

pub mod node;
pub mod runtime;
pub mod memo;
pub mod laws;
