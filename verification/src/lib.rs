//! An incremental tri-color mark-and-sweep garbage collector core with
//! first-class weak references.
//!
//! The engine owns a singly-linked, intrusive list of allocations, each a
//! header (color, needs-trace and live flags packed into the low bits of the
//! vtable word, plus the list link) followed by a typed payload. Marking
//! starts from a host-provided root, drives a grey worklist to fixpoint and
//! paints every reached allocation black; sweeping walks the list, frees
//! white allocations, retains weakly-observed ones with their payload
//! dropped, and repaints survivors white for the next cycle.
//!
//! Addresses are indices into the engine's slot arena and are never reused,
//! so a handle is a plain copyable address; strong and weak handles differ
//! only in what they promise about the payload behind that address.

pub mod context;
pub mod gc;
pub mod gc_weak;
pub mod list;
pub mod managed;
pub mod ptr;
pub mod tag;
