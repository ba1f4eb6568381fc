//! Managed object subsystem for a JavaScript-style runtime: a string
//! interner with identity semantics, shape-based (hidden-class) property
//! storage, and a generational mark/sweep garbage collector.
//!
//! Objects, shapes and interned strings are kept in arenas owned by the
//! [`gc::GarbageCollector`]; identities are arena indices, so that the
//! structural invariants (interning identity, shape convergence, sweep
//! safety) are stated and proved over plain values.

pub mod gc;
pub mod object;
pub mod shape;
pub mod string_interner;
