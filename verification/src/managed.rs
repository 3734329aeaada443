//! The capability a type must offer to live on the collected heap.

use vstd::prelude::*;

use crate::context::Visitor;

verus! {

/// A type whose values can be owned by the collector.
///
/// `trace` must report every strong and weak handle the value transitively
/// owns by calling [`Visitor::trace`] and [`Visitor::trace_weak`]; a strong
/// handle that goes unreported does not keep its target alive. `needs_trace`
/// must return `true` if values of the type can own any handle at all;
/// `false` is a performance hint that lets marking skip the grey worklist
/// for the type.
///
/// Implementations are the host's own and are not verified; the engine's
/// guarantees hold for every behaviour of `trace` and `needs_trace`.
pub trait Managed {
    /// Whether values of this type may own outgoing handles.
    fn needs_trace() -> bool;

    /// Reports every strong and weak handle owned by `self` to the
    /// visitor. The default reports nothing, which is right for a payload
    /// that owns no handles.
    fn trace(&self, _visitor: &mut Visitor) {
    }
}

} // verus!
