//! Strong handles to managed allocations.
//!
//! A strong handle is a copyable address plus a phantom payload type; its
//! presence during tracing keeps the target alive. Handle validity is
//! scoped to the host callback it was created in: the engine's contracts
//! ask the caller to present a handle only while its allocation is live,
//! which is what that discipline guarantees.

use core::marker::PhantomData;

use vstd::pervasive::unreached;
use vstd::prelude::*;

use crate::context::{lemma_sweep_keep, Mutation, State};
use crate::gc_weak::GcWeak;
use crate::ptr::{AllocationInner, GcColor};

verus! {

/// A garbage-collected pointer to a payload of type `T`: a plain machine
/// word, freely copyable, that names an allocation by address.
pub struct Gc<T> {
    /// The address of the allocation this handle observes.
    pub ptr: usize,
    /// The payload type the handle promises to find at that address.
    pub marker: PhantomData<T>,
}

impl<T> Clone for Gc<T> {
    fn clone(&self) -> (r: Self)
        ensures
            r == *self,
    {
        Gc { ptr: self.ptr, marker: PhantomData }
    }
}

impl<T> Copy for Gc<T> {

}

impl<T> Gc<T> {
    /// The address of the payload this handle points at.
    pub open spec fn addr(self) -> usize {
        self.ptr
    }

    /// The handle with the given payload address: fully determined by the
    /// address, since handles carry nothing else.
    pub open spec fn spec_from_ptr(ptr: usize) -> Gc<T> {
        Gc { ptr, marker: PhantomData }
    }

    /// Reinterprets the handle at a different payload type, keeping the
    /// address. Sound only when a payload of type `U` actually lives at
    /// that address; the engine never checks.
    pub fn cast<U>(this: Gc<T>) -> (r: Gc<U>)
        ensures
            r.addr() == this.addr(),
            r == Gc::<U>::spec_from_ptr(this.ptr),
    {
        Gc { ptr: this.ptr, marker: PhantomData }
    }

    /// Rebuilds a handle from an address obtained from [`Gc::as_ptr`]. The
    /// caller promises the allocation has not been collected since.
    pub fn from_ptr(ptr: usize) -> (r: Self)
        ensures
            r == Self::spec_from_ptr(ptr),
            r.addr() == ptr,
    {
        Gc { ptr, marker: PhantomData }
    }

    /// A borrow of the payload this handle points at.
    pub fn as_ref<'a>(self, st: &'a State<T>) -> (r: &'a T)
        requires
            st.valid_addr(self.ptr as int),
            st.live(self.ptr as int),
            st.wf(),
        ensures
            Some(*r) == st.slots@[self.ptr as int].value,
    {
        match &self.slots_ref(st).value {
            Some(v) => v,
            None => unreached(),
        }
    }

    /// The payload's address.
    pub fn as_ptr(gc: Gc<T>) -> (r: usize)
        ensures
            r == gc.addr(),
    {
        gc.ptr
    }

    /// Produces a weak handle with the same target.
    pub fn downgrade(self) -> (r: GcWeak<T>)
        ensures
            r.0 == self,
    {
        GcWeak(self)
    }

    /// Replaces the payload behind this handle. Takes the mutation
    /// capability: payload stores happen only inside a mutation callback.
    /// This collector marks atomically per cycle, so no store barrier is
    /// needed: the next mark traces whatever the payload holds then.
    pub fn write(self, _mutation: &Mutation, st: &mut State<T>, value: T)
        requires
            old(st).wf(),
            old(st).valid_addr(self.ptr as int),
            old(st).live(self.ptr as int),
        ensures
            final(st).wf(),
            final(st).slots@.len() == old(st).slots@.len(),
            final(st).slots@[self.ptr as int].value == Some(value),
            final(st).slots@[self.ptr as int].header == old(st).slots@[self.ptr as int].header,
            final(st).slots@[self.ptr as int].freed == old(st).slots@[self.ptr as int].freed,
            forall|j: int|
                old(st).valid_addr(j) && j != self.ptr ==> final(st).slots@[j] == old(
                    st,
                ).slots@[j],
            final(st).head == old(st).head,
            final(st).grey@ == old(st).grey@,
            final(st).is_sweeping == old(st).is_sweeping,
    {
        let slot = &mut st.slots[self.ptr];
        slot.value = Some(value);
        proof {
            lemma_sweep_keep(*old(st), *st, None);
            assert forall|i: int| st.valid_addr(i) implies st.slot_wf(i) by {
                assert(old(st).slot_wf(i));
                assert(st.in_list(i) == old(st).in_list(i));
            }
            assert forall|k: int|
                0 <= k < st.grey@.len() implies {
                let g = #[trigger] st.grey@[k] as int;
                &&& st.valid_addr(g)
                &&& st.color_of(g) == GcColor::Grey
                &&& st.live(g)
                &&& st.needs_trace_of(g)
            } by {
                assert(old(st).grey@[k] == st.grey@[k]);
            }
        }
    }

    /// Whether two handles point to the same allocation.
    pub fn ptr_eq(this: Gc<T>, other: Gc<T>) -> (r: bool)
        ensures
            r == (this.addr() == other.addr()),
    {
        this.ptr == other.ptr
    }

    /// A borrow of this handle's slot in the arena.
    fn slots_ref<'a>(self, st: &'a State<T>) -> (r: &'a AllocationInner<T>)
        requires
            st.valid_addr(self.ptr as int),
        ensures
            *r == st.slots@[self.ptr as int],
    {
        &st.slots[self.ptr]
    }
}

/// Two strong handles are equal exactly when their payload addresses are:
/// a handle holds nothing but the address.
pub proof fn lemma_handle_identity<T>(h1: Gc<T>, h2: Gc<T>)
    ensures
        (h1 == h2) <==> (h1.addr() == h2.addr()),
{
}

/// Rebuilding a handle from a live handle's address yields that handle
/// back.
pub proof fn lemma_from_ptr_roundtrip<T>(h: Gc<T>)
    ensures
        Gc::<T>::spec_from_ptr(h.addr()) == h,
{
}

} // verus!
