//! Weak handles to managed allocations.
//!
//! A weak handle has the same representation as a strong one but never
//! keeps its target alive: it can observe the target's death, and an
//! upgrade succeeds only while the payload has not been dropped.

use vstd::prelude::*;

use crate::context::{Finalization, Mutation, State};
use crate::gc::Gc;

verus! {

/// A weak garbage-collected pointer to a payload of type `T`.
pub struct GcWeak<T>(pub Gc<T>);

impl<T> Clone for GcWeak<T> {
    fn clone(&self) -> (r: Self)
        ensures
            r == *self,
    {
        GcWeak(self.0)
    }
}

impl<T> Copy for GcWeak<T> {

}

impl<T> GcWeak<T> {
    /// The address of the payload this handle observes.
    pub open spec fn addr(self) -> usize {
        self.0.ptr
    }

    /// What an upgrade returns: the strong handle for the same target when
    /// the payload is still there, nothing once it has been dropped.
    pub open spec fn spec_upgrade(self, st: State<T>) -> Option<Gc<T>> {
        if st.live(self.0.ptr as int) {
            Some(self.0)
        } else {
            None
        }
    }

    /// Reinterprets a strong handle as a weak handle at a different payload
    /// type, keeping the address.
    pub fn cast<U>(this: Gc<T>) -> (r: GcWeak<U>)
        ensures
            r.addr() == this.addr(),
    {
        GcWeak(Gc::cast(this))
    }

    /// Rebuilds a weak handle from an address obtained from
    /// [`GcWeak::as_ptr`] or [`Gc::as_ptr`]. The caller promises the
    /// allocation's header still exists: the target may be dropped, but not
    /// yet fully collected.
    pub fn from_ptr(ptr: usize) -> (r: Self)
        ensures
            r.0 == Gc::<T>::spec_from_ptr(ptr),
            r.addr() == ptr,
    {
        GcWeak(Gc::from_ptr(ptr))
    }

    /// The observed payload's address.
    pub fn as_ptr(gc: GcWeak<T>) -> (r: usize)
        ensures
            r == gc.addr(),
    {
        Gc::as_ptr(gc.0)
    }

    /// Returns a strong handle to the target exactly while its payload has
    /// not been dropped. Requires the mutation capability: a strong handle
    /// may only come to exist inside a mutation callback.
    pub fn upgrade(self, _mutation: &Mutation, st: &State<T>) -> (r: Option<Gc<T>>)
        requires
            st.valid_addr(self.0.ptr as int),
            !st.freed(self.0.ptr as int),
        ensures
            r == self.spec_upgrade(*st),
    {
        if st.can_upgrade(self.0.ptr) {
            Some(self.0)
        } else {
            None
        }
    }

    /// Whether the target's payload has been dropped.
    pub fn is_dropped(self, st: &State<T>) -> (r: bool)
        requires
            st.valid_addr(self.0.ptr as int),
            !st.freed(self.0.ptr as int),
        ensures
            r == !st.live(self.0.ptr as int),
    {
        !st.can_upgrade(self.0.ptr)
    }

    /// During finalization, revokes the pending collection of the target:
    /// one about to be collected this cycle re-enters marking, repainted
    /// grey and pushed onto the worklist if its type needs tracing, and
    /// straight to black if not. Requires a live target, as resurrection
    /// must happen before the sweep that would drop the payload.
    pub fn rescurrect(self, _finalization: &Finalization, st: &mut State<T>)
        requires
            old(st).wf(),
            old(st).valid_addr(self.0.ptr as int),
            old(st).live(self.0.ptr as int),
        ensures
            final(st).wf(),
            State::same_except_colors(*old(st), *final(st)),
            State::colors_advance(*old(st), *final(st)),
            forall|j: int|
                old(st).valid_addr(j) && j != self.0.ptr ==> #[trigger] final(st).color_of(j)
                    == old(st).color_of(j),
            (old(st).color_of(self.0.ptr as int) is White || old(st).color_of(
                self.0.ptr as int,
            ) is WhiteWeak) ==> {
                if old(st).needs_trace_of(self.0.ptr as int) {
                    final(st).color_of(self.0.ptr as int) is Grey && final(st).grey@ == old(
                        st,
                    ).grey@.push(self.0.ptr)
                } else {
                    final(st).color_of(self.0.ptr as int) is Black && final(st).grey@ == old(
                        st,
                    ).grey@
                }
            },
            (old(st).color_of(self.0.ptr as int) is Grey || old(st).color_of(self.0.ptr as int)
                is Black) ==> *final(st) == *old(st),
    {
        st.rescurrect(self.0.ptr);
    }

    /// Whether two weak handles observe the same allocation.
    pub fn ptr_eq(this: GcWeak<T>, other: GcWeak<T>) -> (r: bool)
        ensures
            r == (this.addr() == other.addr()),
    {
        Gc::ptr_eq(this.0, other.0)
    }
}

/// Downgrading a live strong handle and upgrading the result yields the
/// original handle back.
pub proof fn lemma_downgrade_upgrade_roundtrip<T>(h: Gc<T>, st: State<T>)
    requires
        st.valid_addr(h.ptr as int),
        st.live(h.ptr as int),
    ensures
        GcWeak(h).spec_upgrade(st) == Some(h),
{
}

} // verus!
