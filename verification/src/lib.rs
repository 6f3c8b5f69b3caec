//! An in-memory, lazily growing graph store.
//!
//! Every node is identified by a process-unique integer and is either a leaf
//! holding one scalar value or a container holding named links to child nodes.
//! All records live in a [`graph::Store`], the append-only table that owns
//! them; a [`graph::Node`] is a lightweight handle (a plain id) through which
//! callers traverse or create children (`get`), replace a value (`put`) and
//! subscribe to value changes (`on`).
//!
//! Value changes are reported synchronously as [`graph::Note`] events: `put`
//! returns one note per live subscription, and `on` reports the value that is
//! already present, if any. The host that owns the callbacks delivers these
//! events; the store itself never invokes foreign code.

pub mod graph;
pub mod laws;
pub mod model;

pub use graph::Node;
pub use graph::Note;
pub use graph::Store;
