//! The engine's state and the three capability views over it.
//!
//! `State` owns the slot arena, the head of the global allocation list and
//! the grey worklist. The host never touches the state directly during a
//! callback: it acts through `Mutation` (allocation and upgrades), `Visitor`
//! (tracing) and `Finalization` (resurrection of objects about to be
//! collected). The capabilities carry no data of their own except for the
//! visitor, which buffers the handles a user trace reports so that the
//! engine can apply them to the state afterwards.
//!
//! The state's well-formedness `wf` packages the collector's invariants:
//! the list links point strictly downwards, an allocation is on the list
//! exactly while its memory is not freed, the live flag mirrors the
//! presence of the payload, and everything on the grey worklist is a live,
//! traceable allocation whose stored color is `Grey`.

use core::marker::PhantomData;

use vstd::prelude::*;

use crate::gc::Gc;
use crate::gc_weak::GcWeak;
use crate::list::{
    lemma_list_from_agree_below,
    lemma_list_from_props,
    lemma_list_from_unlink,
    lemma_list_sorted,
    links_ok,
    list_from,
    node_in_range,
    node_measure,
    node_ok,
};
use crate::managed::Managed;
use crate::ptr::{free_alloc, AllocationHeader, AllocationInner, GcColor};

verus! {

broadcast use {
    vstd::seq_lib::lemma_seq_contains,
    vstd::seq_lib::lemma_seq_empty_contains_nothing,
    vstd::seq_lib::lemma_seq_concat_contains_all_elements,
    vstd::seq_lib::lemma_seq_contains_after_push,
    vstd::seq_lib::lemma_seq_subrange_elements,
};

/// The address of the static per-type vtable record: the engine manages a
/// single payload type, so one aligned address stands for its vtable, and
/// only the address's alignment matters — its low four bits carry the
/// header's flags.
pub const VTABLE_ADDR: usize = 16;

/// Capability to allocate and to upgrade weak handles. Handed to the host
/// for the duration of a mutation callback; it cannot be forged.
pub struct Mutation {
    _token: (),
}

/// Capability to resurrect objects after marking, before the sweep. Handed
/// to the host for the duration of a finalization callback.
pub struct Finalization {
    _token: (),
}

/// The tracing capability passed to a user's `trace` method.
///
/// It buffers what the trace reports — the strong and weak handles the
/// payload owns, by address — and whether the trace aborted; the engine
/// applies the buffer to its state once the user code has returned.
pub struct Visitor {
    /// Addresses reported as strong outgoing handles.
    pub strong: Vec<usize>,
    /// Addresses reported as weak outgoing handles.
    pub weak: Vec<usize>,
    /// Whether the trace gave up before reporting everything.
    pub aborted: bool,
}

impl Visitor {
    /// An empty visitor buffer.
    pub fn new() -> (v: Visitor)
        ensures
            v.strong@ == Seq::<usize>::empty(),
            v.weak@ == Seq::<usize>::empty(),
            !v.aborted,
    {
        Visitor { strong: Vec::new(), weak: Vec::new(), aborted: false }
    }

    /// Reports a strong outgoing handle.
    pub fn trace<T>(&mut self, gc: Gc<T>)
        ensures
            final(self).strong@ == old(self).strong@.push(gc.ptr),
            final(self).weak@ == old(self).weak@,
            final(self).aborted == old(self).aborted,
    {
        self.strong.push(Gc::as_ptr(gc));
    }

    /// Reports a weak outgoing handle.
    pub fn trace_weak<T>(&mut self, handle: GcWeak<T>)
        ensures
            final(self).weak@ == old(self).weak@.push(handle.0.ptr),
            final(self).strong@ == old(self).strong@,
            final(self).aborted == old(self).aborted,
    {
        self.weak.push(GcWeak::as_ptr(handle));
    }

    /// Marks the trace as aborted: the engine will keep the allocation
    /// being traced on the grey worklist and report the mark as incomplete.
    pub fn abort(&mut self)
        ensures
            final(self).aborted,
            final(self).strong@ == old(self).strong@,
            final(self).weak@ == old(self).weak@,
    {
        self.aborted = true;
    }
}

/// The engine's top-level record: the slot arena, the head of the global
/// allocation list, the grey worklist and the sweep flag.
///
/// Addresses are indices into `slots` and are never reused; freeing an
/// allocation marks its slot rather than removing it, which models memory
/// that has been returned to the allocator and must not be touched.
pub struct State<T> {
    /// The slot arena; the allocation at address `a` lives in `slots[a]`.
    pub slots: Vec<AllocationInner<T>>,
    /// The most recently allocated element of the global list.
    pub head: Option<usize>,
    /// The grey worklist: addresses awaiting a trace of their payload.
    pub grey: Vec<usize>,
    /// Whether a sweep is in progress.
    pub is_sweeping: bool,
}

impl<T> State<T> {
    /// `i` names a slot of the arena.
    pub open spec fn valid_addr(self, i: int) -> bool {
        0 <= i < self.slots@.len()
    }

    /// The header of the allocation at address `i`.
    pub open spec fn hdr_of(self, i: int) -> AllocationHeader {
        self.slots@[i].header
    }

    /// The stored color of the allocation at address `i`.
    pub open spec fn color_of(self, i: int) -> GcColor {
        self.hdr_of(i).spec_color()
    }

    /// Whether the payload at address `i` has not been dropped.
    pub open spec fn live(self, i: int) -> bool {
        self.hdr_of(i).spec_is_live()
    }

    /// The needs-trace flag of the allocation at address `i`.
    pub open spec fn needs_trace_of(self, i: int) -> bool {
        self.hdr_of(i).spec_needs_trace()
    }

    /// Whether the memory at address `i` has been released.
    pub open spec fn freed(self, i: int) -> bool {
        self.slots@[i].freed
    }

    /// The addresses on the global allocation list, head first.
    pub open spec fn the_list(self) -> Seq<int> {
        list_from(self.slots@, self.head)
    }

    /// Whether address `i` is on the global allocation list.
    pub open spec fn in_list(self, i: int) -> bool {
        self.the_list().contains(i)
    }

    /// Per-slot invariants: the live flag mirrors the payload's presence,
    /// freed memory holds no payload and is off the list, list membership
    /// is exactly non-freed-ness, and a stored `Grey` color means the
    /// allocation sits on the grey worklist.
    pub open spec fn slot_wf(self, i: int) -> bool {
        &&& (self.live(i) <==> self.slots@[i].value is Some)
        &&& (self.freed(i) ==> !self.live(i))
        &&& (self.in_list(i) <==> !self.freed(i))
        &&& (self.color_of(i) == GcColor::Grey && !self.freed(i) ==> self.grey@.contains(
            i as usize,
        ))
    }

    /// Everything on the grey worklist is a live, traceable allocation
    /// whose stored color is `Grey`.
    pub open spec fn grey_wf(self) -> bool {
        forall|k: int|
            0 <= k < self.grey@.len() ==> {
                let g = #[trigger] self.grey@[k] as int;
                &&& self.valid_addr(g)
                &&& self.color_of(g) == GcColor::Grey
                &&& self.live(g)
                &&& self.needs_trace_of(g)
            }
    }

    /// The collector's invariants, as maintained by every engine operation.
    pub open spec fn wf(self) -> bool {
        &&& links_ok(self.slots@)
        &&& node_in_range(self.slots@, self.head)
        &&& (forall|i: int| self.valid_addr(i) ==> self.slot_wf(i))
        &&& self.grey_wf()
        &&& self.grey@.no_duplicates()
    }

    /// `post` differs from `pre` at most in stored colors and in the grey
    /// worklist: the arena's size, the list structure, payloads, flags and
    /// freed marks are untouched. This is the frame of the marking
    /// operations.
    pub open spec fn same_except_colors(pre: State<T>, post: State<T>) -> bool {
        &&& post.slots@.len() == pre.slots@.len()
        &&& post.head == pre.head
        &&& post.is_sweeping == pre.is_sweeping
        &&& forall|i: int|
            pre.valid_addr(i) ==> {
                &&& (#[trigger] post.slots@[i]).value == pre.slots@[i].value
                &&& post.slots@[i].freed == pre.slots@[i].freed
                &&& post.hdr_of(i).spec_next() == pre.hdr_of(i).spec_next()
                &&& post.hdr_of(i).spec_is_live() == pre.hdr_of(i).spec_is_live()
                &&& post.hdr_of(i).spec_needs_trace() == pre.hdr_of(i).spec_needs_trace()
                &&& post.hdr_of(i).spec_vtable() == pre.hdr_of(i).spec_vtable()
            }
    }

    /// No stored color moves backwards in the White → WhiteWeak → Grey →
    /// Black order: marking only advances colors.
    pub open spec fn colors_advance(pre: State<T>, post: State<T>) -> bool {
        forall|i: int|
            pre.valid_addr(i) ==> color_rank(#[trigger] post.color_of(i)) >= color_rank(
                pre.color_of(i),
            )
    }

    /// A fresh engine with no allocations.
    pub fn new() -> (st: State<T>)
        ensures
            st.wf(),
            st.slots@.len() == 0,
            st.head is None,
            st.grey@.len() == 0,
            !st.is_sweeping,
    {
        let st = State { slots: Vec::new(), head: None, grey: Vec::new(), is_sweeping: false };
        proof {
            assert(st.the_list() =~= Seq::<int>::empty());
        }
        st
    }

    /// Mints the mutation capability for a host callback.
    pub fn mutation_context(&self) -> Mutation {
        Mutation { _token: () }
    }

    /// Mints a fresh visitor buffer for a trace.
    pub fn visitor_context(&self) -> (v: Visitor)
        ensures
            v.strong@ == Seq::<usize>::empty(),
            v.weak@ == Seq::<usize>::empty(),
            !v.aborted,
    {
        Visitor::new()
    }

    /// Mints the finalization capability for a host callback.
    pub fn finalization_context(&self) -> Finalization {
        Finalization { _token: () }
    }

    /// Whether the allocation at `alloc` can still be upgraded to a strong
    /// handle: exactly when its payload has not been dropped.
    pub fn can_upgrade(&self, alloc: usize)
        -> (r: bool)
        requires
            self.valid_addr(alloc as int),
            !self.freed(alloc as int),
        ensures
            r == self.live(alloc as int),
    {
        self.slots[alloc].header.is_live()
    }

    /// A borrow of the header of the allocation at `alloc`.
    pub fn header(&self, alloc: usize) -> (h: &AllocationHeader)
        requires
            self.valid_addr(alloc as int),
            !self.freed(alloc as int),
        ensures
            *h == self.hdr_of(alloc as int),
    {
        &self.slots[alloc].header
    }
}

impl<T> State<T> {
    /// Marks a strong edge during tracing, as the visitor reports it: a
    /// white (or weakly-observed white) target becomes grey and enters the
    /// worklist if its type needs tracing, black directly if it does not;
    /// grey and black targets are left alone.
    pub fn trace(&mut self, alloc: usize)
        requires
            old(self).wf(),
            old(self).valid_addr(alloc as int),
            old(self).live(alloc as int),
        ensures
            final(self).wf(),
            State::same_except_colors(*old(self), *final(self)),
            State::colors_advance(*old(self), *final(self)),
            forall|j: int|
                old(self).valid_addr(j) && j != alloc ==> #[trigger] final(self).color_of(j)
                    == old(self).color_of(j),
            (old(self).color_of(alloc as int) is White || old(self).color_of(alloc as int)
                is WhiteWeak) ==> {
                if old(self).needs_trace_of(alloc as int) {
                    final(self).color_of(alloc as int) is Grey && final(self).grey@ == old(
                        self,
                    ).grey@.push(alloc)
                } else {
                    final(self).color_of(alloc as int) is Black && final(self).grey@ == old(
                        self,
                    ).grey@
                }
            },
            (old(self).color_of(alloc as int) is Grey || old(self).color_of(alloc as int)
                is Black) ==> *final(self) == *old(self),
    {
        let ghost pre = *self;
        let color = self.slots[alloc].header.color();
        match color {
            GcColor::White | GcColor::WhiteWeak => {
                if self.slots[alloc].header.needs_trace() {
                    // A white traceable object cannot be on the grey
                    // worklist yet, so it becomes grey and enters it.
                    proof {
                        if old(self).grey@.contains(alloc) {
                            let k = choose|k: int|
                                0 <= k < old(self).grey@.len() && old(self).grey@[k] == alloc;
                            assert(old(self).color_of(alloc as int) is Grey);
                        }
                    }
                    let slot = &mut self.slots[alloc];
                    slot.header.set_color(GcColor::Grey);
                    self.grey.push(alloc);
                    proof {
                        assert forall|k1: int, k2: int|
                            0 <= k1 < self.grey@.len() && 0 <= k2 < self.grey@.len() && k1
                                != k2 implies self.grey@[k1] != self.grey@[k2] by {
                            if k1 < old(self).grey@.len() && k2 < old(self).grey@.len() {
                                assert(old(self).grey@[k1] != old(self).grey@[k2]);
                            }
                        }
                    }
                } else {
                    // A white object that needs no tracing becomes black
                    // at once.
                    let slot = &mut self.slots[alloc];
                    slot.header.set_color(GcColor::Black);
                }
                proof {
                    lemma_frame_list(pre, *self);
                    assert forall|i: int| self.valid_addr(i) implies self.slot_wf(i) by {
                        assert(pre.slot_wf(i));
                        assert(self.in_list(i) == pre.in_list(i));
                    }
                }
            },
            _ => {},
        }
    }

    /// Notes a weak edge during tracing: a white target is repainted
    /// `WhiteWeak` so that the sweep keeps its header for the weak
    /// handle's sake; any other color is left alone.
    pub fn trace_weak(&mut self, alloc: usize)
        requires
            old(self).wf(),
            old(self).valid_addr(alloc as int),
            !old(self).freed(alloc as int),
        ensures
            final(self).wf(),
            State::same_except_colors(*old(self), *final(self)),
            State::colors_advance(*old(self), *final(self)),
            final(self).grey@ == old(self).grey@,
            forall|j: int|
                old(self).valid_addr(j) && j != alloc ==> #[trigger] final(self).color_of(j)
                    == old(self).color_of(j),
            old(self).color_of(alloc as int) is White ==> final(self).color_of(alloc as int)
                is WhiteWeak,
            !(old(self).color_of(alloc as int) is White) ==> *final(self) == *old(self),
    {
        let ghost pre = *self;
        let color = self.slots[alloc].header.color();
        match color {
            GcColor::White => {
                let slot = &mut self.slots[alloc];
                slot.header.set_color(GcColor::WhiteWeak);
                proof {
                    lemma_frame_list(pre, *self);
                    assert forall|i: int| self.valid_addr(i) implies self.slot_wf(i) by {
                        assert(pre.slot_wf(i));
                        assert(self.in_list(i) == pre.in_list(i));
                    }
                }
            },
            _ => {},
        }
    }

    /// During finalization, revokes the pending collection of a live
    /// allocation: one about to be collected this cycle re-enters marking,
    /// repainted grey and pushed onto the worklist if its type needs
    /// tracing, and straight to black if not — the worklist never holds an
    /// untraceable allocation. Already-marked allocations and colors of
    /// other allocations are left alone.
    pub fn rescurrect(&mut self, alloc: usize)
        requires
            old(self).wf(),
            old(self).valid_addr(alloc as int),
            old(self).live(alloc as int),
        ensures
            final(self).wf(),
            State::same_except_colors(*old(self), *final(self)),
            State::colors_advance(*old(self), *final(self)),
            forall|j: int|
                old(self).valid_addr(j) && j != alloc ==> #[trigger] final(self).color_of(j)
                    == old(self).color_of(j),
            (old(self).color_of(alloc as int) is White || old(self).color_of(alloc as int)
                is WhiteWeak) ==> {
                if old(self).needs_trace_of(alloc as int) {
                    final(self).color_of(alloc as int) is Grey && final(self).grey@ == old(
                        self,
                    ).grey@.push(alloc)
                } else {
                    final(self).color_of(alloc as int) is Black && final(self).grey@ == old(
                        self,
                    ).grey@
                }
            },
            (old(self).color_of(alloc as int) is Grey || old(self).color_of(alloc as int)
                is Black) ==> *final(self) == *old(self),
    {
        self.trace(alloc);
    }

    /// Allocates a payload: builds a live, white header whose link is the
    /// current head, stores the payload beside it in a fresh slot, and
    /// publishes the slot as the new head of the global list.
    pub fn allocate(&mut self, value: T) -> (gc: Gc<T>)
        where T: Managed
        requires
            old(self).wf(),
        ensures
            final(self).wf(),
            gc.ptr == old(self).slots@.len(),
            final(self).slots@.len() == old(self).slots@.len() + 1,
            forall|j: int|
                old(self).valid_addr(j) ==> #[trigger] final(self).slots@[j] == old(
                    self,
                ).slots@[j],
            final(self).head == Some(gc.ptr),
            final(self).color_of(gc.ptr as int) is White,
            final(self).live(gc.ptr as int),
            !final(self).freed(gc.ptr as int),
            final(self).slots@[gc.ptr as int].value == Some(value),
            final(self).hdr_of(gc.ptr as int).spec_next() == old(self).head,
            final(self).grey@ == old(self).grey@,
            final(self).is_sweeping == old(self).is_sweeping,
            final(self).hdr_of(gc.ptr as int).spec_vtable() == VTABLE_ADDR,
            final(self).the_list() == seq![gc.ptr as int] + old(self).the_list(),
            final(self).in_list(gc.ptr as int),
    {
        let ghost pre = *self;
        let idx = self.slots.len();
        let mut header = AllocationHeader::new(VTABLE_ADDR);
        header.set_next(self.head);
        header.set_live(true);
        header.set_needs_trace(T::needs_trace());
        self.slots.push(AllocationInner { header, value: Some(value), freed: false });
        self.head = Some(idx);
        proof {
            assert forall|i: int| 0 <= i < self.slots@.len() implies node_ok(self.slots@, i) by {
                if i < pre.slots@.len() {
                    assert(node_ok(pre.slots@, i));
                }
            }
            lemma_list_from_agree_below(
                pre.slots@,
                self.slots@,
                pre.head,
                pre.slots@.len() as int,
            );
            assert(self.the_list() == seq![idx as int] + pre.the_list());
            assert forall|i: int| self.valid_addr(i) implies self.slot_wf(i) by {
                assert(self.the_list()[0] == idx as int);
                if i < pre.slots@.len() {
                    assert(pre.slot_wf(i));
                    assert(pre.in_list(i) ==> self.in_list(i));
                    if self.in_list(i) {
                        let k = choose|k: int|
                            0 <= k < self.the_list().len() && self.the_list()[k] == i;
                        assert(pre.the_list()[k - 1] == i);
                    }
                } else {
                    assert(self.in_list(i));
                }
            }
        }
        Gc { ptr: idx, marker: PhantomData }
    }
}

impl<T> State<T> {
    /// The mark phase: traces the host's root, then drains the grey
    /// worklist, tracing each entry's payload and painting it black, until
    /// nothing is grey. Returns whether marking ran to completion: a user
    /// trace that aborts stops the phase early, with the allocation whose
    /// trace aborted still grey and still on the worklist, so that a later
    /// mark can finish the cycle.
    ///
    /// Entries already on the worklist — left by an aborted mark, or added
    /// by resurrection during finalization — are drained as well, and on
    /// completion every one of them has been painted black.
    ///
    /// On completion no allocation is grey: every one the traces reached is
    /// black or weakly observed, and the rest are untouched, ready to be
    /// swept. What each single trace report does to the state is the
    /// contract of [`State::apply_visitor`], the step this phase repeats.
    pub fn do_mark<R: Managed>(&mut self, root: &R) -> (complete: bool)
        where T: Managed
        requires
            old(self).wf(),
        ensures
            final(self).wf(),
            State::same_except_colors(*old(self), *final(self)),
            State::colors_advance(*old(self), *final(self)),
            complete ==> final(self).grey@.len() == 0,
            complete ==> forall|i: int|
                final(self).valid_addr(i) && !final(self).freed(i) ==> !(
                #[trigger] final(self).color_of(i) is Grey),
            complete ==> forall|k: int|
                0 <= k < old(self).grey@.len() ==> final(self).color_of(
                    #[trigger] old(self).grey@[k] as int,
                ) is Black,
    {
        let ghost pre = *self;
        let mut vis = self.visitor_context();
        root.trace(&mut vis);
        let root_aborted = vis.aborted;
        self.apply_visitor(&vis);
        if root_aborted {
            return false;
        }
        while self.grey.len() != 0
            invariant
                self.wf(),
                pre == *old(self),
                State::same_except_colors(pre, *self),
                State::colors_advance(pre, *self),
            decreases count_pending(self.slots@),
        {
            let ghost begin = *self;
            let g_opt = self.grey.pop();
            let g = match g_opt {
                Some(v) => v,
                None => unreached(),
            };
            proof {
                assert(begin.grey@[begin.grey@.len() - 1] == g);
                assert(begin.valid_addr(g as int) && begin.color_of(g as int) is Grey
                    && begin.live(g as int) && begin.needs_trace_of(g as int));
                assert(!self.grey@.contains(g)) by {
                    if self.grey@.contains(g) {
                        let k = choose|k: int|
                            0 <= k < self.grey@.len() && self.grey@[k] == g;
                        assert(begin.grey@[k] == begin.grey@[begin.grey@.len() - 1]);
                    }
                }
            }
            // Keep the allocation queued while user code runs, so that an
            // aborted trace leaves it grey and on the worklist rather than
            // stranded.
            self.grey.push(g);
            let ghost queued = *self;
            proof {
                assert(queued.grey@ =~= begin.grey@);
                lemma_wf_same_views(begin, queued);
                assert(State::same_except_colors(begin, queued));
                assert(State::colors_advance(begin, queued));
            }
            let mut gvis = Visitor::new();
            match &self.slots[g].value {
                Some(v) => v.trace(&mut gvis),
                None => unreached(),
            }
            if gvis.aborted {
                // The trace gave up: apply what it reported before the
                // abort and leave the allocation queued for the next cycle.
                self.apply_visitor(&gvis);
                proof {
                    lemma_frame_trans(begin, queued, *self);
                    lemma_advance_trans(begin, queued, *self);
                    lemma_frame_trans(pre, begin, *self);
                    lemma_advance_trans(pre, begin, *self);
                }
                return false;
            }
            // The trace succeeded: unqueue the allocation, paint it black,
            // and apply the report. (The report may name the allocation
            // itself; by then it is already black, so that is a no-op.)
            let _requeued: Option<usize> = self.grey.pop();
            let ghost unqueued = *self;
            {
                let slot = &mut self.slots[g];
                slot.header.set_color(GcColor::Black);
            }
            let ghost blacked = *self;
            proof {
                assert(unqueued.grey@ =~= begin.grey@.subrange(
                    0,
                    begin.grey@.len() - 1,
                ));
                assert(State::same_except_colors(begin, unqueued));
                assert(State::same_except_colors(unqueued, blacked));
                lemma_frame_trans(begin, unqueued, blacked);
                assert(State::colors_advance(begin, blacked));
                lemma_frame_list(begin, blacked);
                // Re-establish well-formedness after the repaint: the
                // drained allocation is black now, everything still grey
                // was already queued below it, and the queue's remaining
                // entries are untouched.
                assert forall|i: int| blacked.valid_addr(i) implies blacked.slot_wf(i) by {
                    assert(begin.slot_wf(i));
                    assert(blacked.in_list(i) == begin.in_list(i));
                    if i != g && blacked.color_of(i) is Grey && !blacked.freed(i) {
                        vstd::std_specs::vec::axiom_spec_len(&begin.slots);
                        assert(begin.color_of(i) is Grey);
                        assert(begin.grey@.contains(i as usize));
                        let k = choose|k: int|
                            0 <= k < begin.grey@.len() && begin.grey@[k] == i as usize;
                        assert(begin.grey@[k] as int == i);
                        assert(begin.grey@[begin.grey@.len() - 1] as int == g as int);
                        assert(k < begin.grey@.len() - 1);
                        assert(blacked.grey@[k] == i as usize);
                        assert(blacked.grey@.contains(i as usize));
                    }
                }
                assert forall|k: int|
                    0 <= k < blacked.grey@.len() implies {
                    let q = #[trigger] blacked.grey@[k] as int;
                    &&& blacked.valid_addr(q)
                    &&& blacked.color_of(q) == GcColor::Grey
                    &&& blacked.live(q)
                    &&& blacked.needs_trace_of(q)
                } by {
                    assert(begin.grey@[k] == blacked.grey@[k]);
                    assert(begin.grey@[k] != begin.grey@[begin.grey@.len() - 1]);
                }
                assert forall|k1: int, k2: int|
                    0 <= k1 < blacked.grey@.len() && 0 <= k2 < blacked.grey@.len() && k1
                        != k2 implies blacked.grey@[k1] != blacked.grey@[k2] by {
                    assert(begin.grey@[k1] != begin.grey@[k2]);
                }
                assert(blacked.wf());
            }
            self.apply_visitor(&gvis);
            proof {
                lemma_frame_trans(begin, blacked, *self);
                lemma_advance_trans(begin, blacked, *self);
                lemma_frame_trans(pre, begin, *self);
                lemma_advance_trans(pre, begin, *self);
                // The drained allocation went grey to black and nothing
                // was ever repainted away from black: the pending count
                // strictly shrinks.
                assert forall|i: int|
                    0 <= i < begin.slots@.len() && begin.slots@[i].header.spec_color()
                        is Black implies (#[trigger] self.slots@[i].header.spec_color())
                    is Black by {
                    assert(begin.color_of(i) is Black);
                    lemma_advance_keeps_black(blacked, *self, i);
                }
                lemma_advance_keeps_black(blacked, *self, g as int);
                lemma_count_pending_lt(begin.slots@, self.slots@, g as int);
            }
        }
        proof {
            assert forall|i: int|
                self.valid_addr(i) && !self.freed(i) implies !(#[trigger] self.color_of(i)
                is Grey) by {
                assert(self.slot_wf(i));
            }
            // Whatever was queued when this mark began — left by an abort,
            // or resurrected during finalization — has been drained black.
            assert forall|k: int|
                0 <= k < pre.grey@.len() implies self.color_of(#[trigger] pre.grey@[k] as int)
                is Black by {
                let g = pre.grey@[k] as int;
                assert(pre.valid_addr(g) && pre.color_of(g) == GcColor::Grey && pre.live(g));
                assert(pre.slot_wf(g));
                assert(color_rank(self.color_of(g)) >= 2);
                assert(!self.freed(g));
                assert(self.slot_wf(g));
            }
        }
        true
    }

    /// What the sweep does to the allocation at address `i`, by the color
    /// marking left it with: black survivors are repainted white and kept
    /// whole; weakly-observed allocations are kept on the list with their
    /// payload dropped, so weak handles can still ask after them; plain
    /// white allocations are dropped and their memory released.
    pub open spec fn swept_outcome(pre: State<T>, post: State<T>, i: int) -> bool {
        if pre.color_of(i) is Black {
            &&& post.color_of(i) is White
            &&& post.live(i) == pre.live(i)
            &&& post.slots@[i].value == pre.slots@[i].value
            &&& !post.freed(i)
            &&& post.needs_trace_of(i) == pre.needs_trace_of(i)
            &&& post.hdr_of(i).spec_vtable() == pre.hdr_of(i).spec_vtable()
        } else if pre.color_of(i) is WhiteWeak {
            &&& post.color_of(i) is White
            &&& !post.live(i)
            &&& post.slots@[i].value is None
            &&& !post.freed(i)
            &&& post.needs_trace_of(i) == pre.needs_trace_of(i)
            &&& post.hdr_of(i).spec_vtable() == pre.hdr_of(i).spec_vtable()
        } else {
            &&& post.freed(i)
            &&& !post.live(i)
            &&& post.slots@[i].value is None
        }
    }

    /// The sweep phase: walks the allocation list, frees every white
    /// allocation (unlinking it), keeps weakly-observed ones with their
    /// payload dropped, and repaints black survivors white for the next
    /// cycle. Requires a drained grey worklist: sweeping with marking
    /// unfinished would free allocations that are merely not yet traced.
    ///
    /// Afterwards everything on the list is white, an allocation is on the
    /// list exactly if marking did not leave it plain white, and
    /// allocations that were already off the list are untouched.
    #[verifier::rlimit(100)]
    #[verifier::spinoff_prover]
    pub fn do_sweep(&mut self)
        requires
            old(self).wf(),
            old(self).grey@.len() == 0,
        ensures
            final(self).wf(),
            final(self).slots@.len() == old(self).slots@.len(),
            final(self).grey@ == old(self).grey@,
            !final(self).is_sweeping,
            forall|i: int|
                old(self).in_list(i) ==> State::swept_outcome(*old(self), *final(self), i),
            forall|i: int|
                old(self).valid_addr(i) && !old(self).in_list(i) ==> final(self).slots@[i] == old(
                    self,
                ).slots@[i],
            forall|i: int|
                #[trigger] final(self).in_list(i) <==> old(self).in_list(i) && !(old(
                    self,
                ).color_of(i) is White),
            forall|i: int| final(self).in_list(i) ==> final(self).color_of(i) is White,
    {
        let ghost pre = *old(self);
        self.is_sweeping = true;
        proof {
            lemma_list_from_props(pre.slots@, pre.head);
            lemma_list_sorted(pre.slots@, pre.head);
        }
        let ghost l0 = pre.the_list();
        let ghost mut kept: Seq<int> = Seq::empty();
        let ghost mut j: int = 0;

        // Walk a snapshot of the head; `sweep_prev` trails the last
        // survivor so a dead allocation can be spliced out in one step.
        let mut sweep: Option<usize> = self.head;
        let mut sweep_prev: Option<usize> = None;

        while sweep.is_some()
            invariant
                pre == *old(self),
                l0 == pre.the_list(),
                pre.wf(),
                pre.grey@.len() == 0,
                self.slots@.len() == pre.slots@.len(),
                self.grey@ == pre.grey@,
                self.is_sweeping,
                links_ok(self.slots@),
                node_in_range(self.slots@, self.head),
                node_in_range(self.slots@, sweep),
                0 <= j <= l0.len(),
                self.the_list() == kept + list_from(self.slots@, sweep),
                list_from(self.slots@, sweep) == l0.subrange(j, l0.len() as int),
                match sweep_prev {
                    Some(p) => kept.len() > 0 && kept.last() == p as int && 0 <= (p as int)
                        < self.slots@.len() && self.hdr_of(p as int).spec_next() == sweep,
                    None => kept.len() == 0 && self.head == sweep,
                },
                // The unprocessed tail and everything off the list are
                // untouched.
                forall|m: int| j <= m < l0.len() ==> self.slots@[#[trigger] l0[m]] == pre.slots@[l0[m]],
                forall|i: int|
                    pre.valid_addr(i) && !pre.in_list(i) ==> self.slots@[i] == pre.slots@[i],
                // Outcomes of the processed prefix.
                forall|m: int|
                    0 <= m < j ==> State::swept_outcome(pre, *self, #[trigger] l0[m]),
                // The survivors so far, in order: the processed prefix
                // without its plain white members.
                forall|x: int|
                    kept.contains(x) <==> exists|m: int|
                        0 <= m < j && #[trigger] l0[m] == x && !(pre.color_of(l0[m]) is White),
            decreases node_measure(sweep),
        {
            let curr = sweep.unwrap();
            proof {
                assert(list_from(self.slots@, sweep)[0] == curr as int);
                assert(l0[j] == curr as int);
                assert(0 <= (curr as int) < pre.slots@.len());
                assert(self.slots@[curr as int] == pre.slots@[curr as int]);
                assert(pre.in_list(curr as int));
                assert(pre.slot_wf(curr as int));
            }
            let next = self.slots[curr].header.next();
            sweep = next;
            let color = self.slots[curr].header.color();
            proof {
                // A grey allocation cannot be on the list: the worklist is
                // empty and every stored grey is on the worklist.
                if color is Grey {
                    assert(pre.grey@.contains(curr));
                }
                assert(list_from(self.slots@, Some(curr)) == seq![curr as int] + list_from(
                    self.slots@,
                    next,
                ));
                assert(l0.subrange(j, l0.len() as int) == seq![curr as int] + l0.subrange(
                    j + 1,
                    l0.len() as int,
                )) by {
                    assert(l0.subrange(j, l0.len() as int).subrange(
                        1,
                        l0.subrange(j, l0.len() as int).len() as int,
                    ) =~= l0.subrange(j + 1, l0.len() as int));
                    assert(l0.subrange(j, l0.len() as int) =~= seq![l0[j]] + l0.subrange(
                        j,
                        l0.len() as int,
                    ).subrange(1, l0.subrange(j, l0.len() as int).len() as int));
                }
                assert(list_from(self.slots@, next) =~= l0.subrange(
                    j + 1,
                    l0.len() as int,
                )) by {
                    let tail = list_from(self.slots@, next);
                    let sub = l0.subrange(j + 1, l0.len() as int);
                    assert(seq![curr as int] + tail == seq![curr as int] + sub);
                    assert(tail.len() == sub.len());
                    assert forall|k: int| 0 <= k < tail.len() implies tail[k] == sub[k] by {
                        assert((seq![curr as int] + tail)[k + 1] == tail[k]);
                        assert((seq![curr as int] + sub)[k + 1] == sub[k]);
                    }
                }
            }
            let ghost at_entry = *self;
            let ghost prev0 = sweep_prev;
            let ghost kept0 = kept;
            match color {
                GcColor::White => {
                    // Unreachable and not weakly observed: splice the
                    // allocation out of the list and free it.
                    match sweep_prev {
                        Some(prev) => {
                            let slot = &mut self.slots[prev];
                            slot.header.set_next(next);
                            proof {
                                lemma_sweep_unlink(at_entry, *self, kept, prev, curr, next);
                            }
                        },
                        None => {
                            self.head = next;
                            proof {
                                assert(kept =~= Seq::<int>::empty());
                                assert(self.the_list() == kept + list_from(self.slots@, next));
                            }
                        },
                    }
                    let ghost unlinked = *self;
                    let slot = &mut self.slots[curr];
                    free_alloc(slot);
                    proof {
                        lemma_sweep_keep(unlinked, *self, next);
                        assert(list_from(at_entry.slots@, next) == l0.subrange(
                            j + 1,
                            l0.len() as int,
                        ));
                        assert(list_from(unlinked.slots@, next) == list_from(
                            at_entry.slots@,
                            next,
                        ));
                        assert(self.the_list() == kept + list_from(self.slots@, next));
                        assert(list_from(self.slots@, next) == l0.subrange(
                            j + 1,
                            l0.len() as int,
                        ));
                    }
                },
                GcColor::WhiteWeak => {
                    // Unreachable but weakly observed: keep the record so
                    // weak handles can see the death, but drop the payload.
                    sweep_prev = Some(curr);
                    let slot = &mut self.slots[curr];
                    slot.header.set_color(GcColor::White);
                    if slot.header.is_live() {
                        slot.header.set_live(false);
                        slot.value = None;
                    }
                    proof {
                        lemma_sweep_keep(at_entry, *self, next);
                    }
                },
                GcColor::Black => {
                    // A reached survivor: repaint white for the next cycle.
                    sweep_prev = Some(curr);
                    let slot = &mut self.slots[curr];
                    slot.header.set_color(GcColor::White);
                    proof {
                        lemma_sweep_keep(at_entry, *self, next);
                    }
                },
                GcColor::Grey => {
                    proof {
                        assert(false);
                    }
                },
            }
            proof {
                lemma_list_sorted(pre.slots@, pre.head);
                lemma_list_from_props(pre.slots@, pre.head);
                let c = curr as int;
                assert(color == pre.color_of(c));
                // This iteration touched only the current allocation and,
                // when it was spliced out, the trailing survivor.
                let ghost ptouch: int = match prev0 {
                    Some(p) => p as int,
                    None => -1,
                };
                assert forall|i: int|
                    0 <= i < self.slots@.len() && i != c && i != ptouch implies self.slots@[i]
                    == at_entry.slots@[i] by {}
                // The trailing survivor sits above the cursor in the list,
                // so the unprocessed tail is still untouched.
                if prev0 is Some {
                    let p = ptouch;
                    assert(kept0.contains(p));
                    let mp = choose|mp: int|
                        0 <= mp < j && #[trigger] l0[mp] == p && !(pre.color_of(l0[mp]) is White);
                    assert(l0[mp] > l0[j]);
                }
                assert forall|m: int|
                    j + 1 <= m < l0.len() implies self.slots@[#[trigger] l0[m]] == pre.slots@[l0[m]] by {
                    assert(l0[m] < l0[j]);
                    assert(at_entry.slots@[l0[m]] == pre.slots@[l0[m]]);
                }
                assert forall|i: int|
                    pre.valid_addr(i) && !pre.in_list(i) implies self.slots@[i] == pre.slots@[i] by {
                    assert(l0.contains(c));
                    if prev0 is Some {
                        assert(l0.contains(ptouch));
                    }
                }
                // The current allocation's fate matches its color; the
                // already-processed prefix keeps its outcome, since at most
                // a link of it changed.
                assert(State::swept_outcome(pre, *self, c));
                assert forall|m: int|
                    0 <= m < j + 1 implies State::swept_outcome(pre, *self, #[trigger] l0[m]) by {
                    if m < j {
                        assert(State::swept_outcome(pre, at_entry, l0[m]));
                        assert(l0[m] != c);
                    }
                }
                if !(pre.color_of(c) is White) {
                    kept = kept.push(c);
                }
                j = j + 1;
                lemma_kept_extends(pre, l0, kept0, kept, j - 1, c);
                // Rebuild the walk invariants for the new cursor.
                if !(pre.color_of(c) is White) {
                    assert(self.the_list() == kept0 + (seq![c] + list_from(self.slots@, next)));
                    assert(kept0 + (seq![c] + list_from(self.slots@, next)) =~= kept + list_from(
                        self.slots@,
                        next,
                    ));
                    assert(list_from(self.slots@, next) == l0.subrange(j, l0.len() as int));
                    assert(self.hdr_of(c).spec_next() == next);
                }
            }
        }
        self.is_sweeping = false;
        proof {
            lemma_list_sorted(pre.slots@, pre.head);
            lemma_list_from_props(pre.slots@, pre.head);
            assert(l0.subrange(j, l0.len() as int).len() == 0);
            assert(j == l0.len());
            assert(self.the_list() =~= kept);
            assert forall|m1: int, m2: int|
                0 <= m1 < m2 < l0.len() implies #[trigger] l0[m2] < #[trigger] l0[m1] by {}
            assert forall|i: int| self.valid_addr(i) implies self.slot_wf(i) by {
                if pre.in_list(i) {
                    let m = choose|m: int| 0 <= m < l0.len() && l0[m] == i;
                    assert(State::swept_outcome(pre, *self, i));
                    assert(pre.slot_wf(i));
                    if pre.color_of(i) is White {
                        if kept.contains(i) {
                            let m2 = choose|m2: int|
                                0 <= m2 < j && #[trigger] l0[m2] == i && !(pre.color_of(l0[m2])
                                is White);
                            assert(m2 == m);
                        }
                        assert(!self.in_list(i));
                    } else {
                        assert(kept.contains(i));
                        assert(self.in_list(i));
                    }
                } else {
                    assert(pre.slot_wf(i));
                    assert(self.slots@[i] == pre.slots@[i]);
                    if kept.contains(i) {
                        let m = choose|m: int|
                            0 <= m < j && #[trigger] l0[m] == i && !(pre.color_of(l0[m])
                            is White);
                        assert(l0.contains(i));
                    }
                    assert(!self.in_list(i));
                }
            }
            assert forall|i: int| #[trigger] self.in_list(i) implies pre.in_list(i) && !(
            pre.color_of(i) is White) by {
                let m = choose|m: int|
                    0 <= m < j && #[trigger] l0[m] == i && !(pre.color_of(l0[m]) is White);
                assert(l0.contains(i));
            }
            assert forall|i: int|
                pre.in_list(i) && !(pre.color_of(i) is White) implies #[trigger] self.in_list(
                i,
            ) by {
                let m = choose|m: int| 0 <= m < l0.len() && l0[m] == i;
                assert(kept.contains(i));
            }
            assert forall|i: int| #[trigger] self.in_list(i) implies self.color_of(i)
                is White by {
                assert(pre.in_list(i) && !(pre.color_of(i) is White));
                let m = choose|m: int| 0 <= m < l0.len() && l0[m] == i;
                assert(State::swept_outcome(pre, *self, i));
                assert(pre.slot_wf(i));
                if pre.color_of(i) is Grey {
                    assert(pre.grey@.contains(i as usize));
                    assert(false);
                }
            }
            assert forall|i: int| pre.in_list(i) implies State::swept_outcome(
                pre,
                *self,
                i,
            ) by {
                let m = choose|m: int| 0 <= m < l0.len() && l0[m] == i;
            }
        }
    }

    /// Tears the engine down: walks the allocation list iteratively —
    /// never recursively, so a long list cannot exhaust the call stack —
    /// dropping every payload that is still live and releasing every
    /// record. The worklist is discarded first; afterwards the engine owns
    /// nothing.
    #[verifier::rlimit(50)]
    #[verifier::spinoff_prover]
    pub fn teardown(&mut self)
        requires
            old(self).wf(),
        ensures
            final(self).wf(),
            final(self).head is None,
            final(self).slots@.len() == old(self).slots@.len(),
            final(self).grey@.len() == 0,
            forall|i: int|
                final(self).valid_addr(i) ==> final(self).freed(i) && !final(self).live(i)
                    && final(self).slots@[i].value is None,
    {
        while self.head.is_some()
            invariant
                links_ok(self.slots@),
                node_in_range(self.slots@, self.head),
                self.slots@.len() == old(self).slots@.len(),
                self.grey@ == old(self).grey@,
                forall|i: int| self.valid_addr(i) ==> self.slot_wf(i),
            decreases node_measure(self.head),
        {
            let ghost begin = *self;
            let h = self.head.unwrap();
            proof {
                lemma_list_from_props(begin.slots@, begin.head);
                assert(begin.the_list()[0] == h as int);
                assert(begin.in_list(h as int));
                assert(begin.slot_wf(h as int));
            }
            let next = self.slots[h].header.next();
            self.head = next;
            let ghost relinked = *self;
            proof {
                assert(relinked.the_list() == list_from(relinked.slots@, next));
                assert(begin.the_list() == seq![h as int] + list_from(begin.slots@, next));
            }
            let slot = &mut self.slots[h];
            free_alloc(slot);
            proof {
                lemma_sweep_keep(relinked, *self, next);
                lemma_list_from_props(begin.slots@, next);
                assert(list_from(relinked.slots@, next) == list_from(begin.slots@, next));
                assert(self.the_list() == list_from(begin.slots@, next));
                assert forall|i: int| self.valid_addr(i) implies self.slot_wf(i) by {
                    assert(begin.slot_wf(i));
                    if i == h as int {
                        // The freed head is no longer on the list: every
                        // remaining member lies below it.
                        if self.in_list(i) {
                            let k = choose|k: int|
                                0 <= k < list_from(begin.slots@, next).len() && list_from(
                                    begin.slots@,
                                    next,
                                )[k] == i;
                            assert(list_from(begin.slots@, next)[k] <= node_measure(next) - 1);
                            assert(false);
                        }
                    } else {
                        assert(self.slots@[i] == begin.slots@[i]);
                        if begin.in_list(i) {
                            let k = choose|k: int|
                                0 <= k < begin.the_list().len() && begin.the_list()[k] == i;
                            if k > 0 {
                                assert(begin.the_list()[k] == list_from(begin.slots@, next)[k
                                    - 1]);
                                assert(self.in_list(i));
                            }
                        } else {
                            if self.in_list(i) {
                                let k = choose|k: int|
                                    0 <= k < list_from(begin.slots@, next).len() && list_from(
                                        begin.slots@,
                                        next,
                                    )[k] == i;
                                assert(begin.the_list()[k + 1] == i);
                                assert(false);
                            }
                        }
                    }
                }
            }
        }
        let ghost done = *self;
        // Nothing is left to trace: discard the worklist.
        self.grey.clear();
        proof {
            assert(done.the_list() =~= Seq::<int>::empty());
            assert forall|i: int| self.valid_addr(i) implies self.freed(i) && !self.live(i)
                && self.slots@[i].value is None by {
                assert(done.slot_wf(i));
                assert(!done.in_list(i));
            }
            assert forall|i: int| self.valid_addr(i) implies self.slot_wf(i) by {
                assert(done.slot_wf(i));
                assert(self.the_list() == done.the_list());
                assert(!self.in_list(i));
            }
        }
    }

    /// Applies a trace's report to the state: every reported strong edge is
    /// marked and every reported weak edge noted, in report order. A report
    /// that does not name a live allocation (a dead target of a strong
    /// report, or an address outside the arena) is ignored: a conforming
    /// host cannot produce one, since handles are scoped to the callback
    /// they were created in.
    ///
    /// This is the step through which every user trace acts on the engine,
    /// and its contract is what a host can rely on: each live strong report
    /// ends the step grey or black — black at once if its type needs no
    /// tracing — each weak report ends it at least weakly observed, and the
    /// color of everything the report does not name is untouched.
    pub fn apply_visitor(&mut self, vis: &Visitor)
        requires
            old(self).wf(),
        ensures
            final(self).wf(),
            State::same_except_colors(*old(self), *final(self)),
            State::colors_advance(*old(self), *final(self)),
            old(self).grey@.len() <= final(self).grey@.len(),
            final(self).grey@.len() <= old(self).grey@.len() + vis.strong@.len(),
            forall|k: int|
                0 <= k < old(self).grey@.len() ==> #[trigger] final(self).grey@[k] == old(
                    self,
                ).grey@[k],
            forall|k: int|
                0 <= k < vis.strong@.len() && old(self).valid_addr(
                    #[trigger] vis.strong@[k] as int,
                ) && old(self).live(vis.strong@[k] as int) ==> color_rank(
                    final(self).color_of(vis.strong@[k] as int),
                ) >= 2,
            forall|k: int|
                0 <= k < vis.strong@.len() && old(self).valid_addr(
                    #[trigger] vis.strong@[k] as int,
                ) && old(self).live(vis.strong@[k] as int) && !old(self).needs_trace_of(
                    vis.strong@[k] as int,
                ) ==> final(self).color_of(vis.strong@[k] as int) is Black,
            forall|k: int|
                0 <= k < vis.weak@.len() && old(self).valid_addr(#[trigger] vis.weak@[k] as int)
                    && !old(self).freed(vis.weak@[k] as int) ==> color_rank(
                    final(self).color_of(vis.weak@[k] as int),
                ) >= 1,
            forall|j: int|
                old(self).valid_addr(j) && !vis.strong@.contains(j as usize)
                    && !vis.weak@.contains(j as usize) ==> final(self).color_of(j) == old(
                    self,
                ).color_of(j),
    {
        let ghost pre = *self;
        let mut idx: usize = 0;
        while idx < vis.strong.len()
            invariant
                self.wf(),
                idx <= vis.strong@.len(),
                State::same_except_colors(pre, *self),
                State::colors_advance(pre, *self),
                pre.grey@.len() <= self.grey@.len(),
                self.grey@.len() <= pre.grey@.len() + idx,
                forall|k: int|
                    0 <= k < pre.grey@.len() ==> #[trigger] self.grey@[k] == pre.grey@[k],
                forall|k: int|
                    0 <= k < idx && pre.valid_addr(#[trigger] vis.strong@[k] as int) && pre.live(
                        vis.strong@[k] as int,
                    ) ==> color_rank(self.color_of(vis.strong@[k] as int)) >= 2,
                forall|j: int|
                    pre.valid_addr(j) && !vis.strong@.contains(j as usize) ==> #[trigger] self.color_of(
                        j,
                    ) == pre.color_of(j),
            decreases vis.strong@.len() - idx,
        {
            let ghost mid = *self;
            let a = vis.strong[idx];
            if a < self.slots.len() {
                if self.slots[a].header.is_live() {
                    self.trace(a);
                    proof {
                        lemma_frame_trans(pre, mid, *self);
                        lemma_advance_trans(pre, mid, *self);
                        assert(color_rank(self.color_of(a as int)) >= 2);
                        assert forall|k: int|
                            0 <= k < idx + 1 && pre.valid_addr(#[trigger] vis.strong@[k] as int)
                                && pre.live(vis.strong@[k] as int) implies color_rank(
                            self.color_of(vis.strong@[k] as int),
                        ) >= 2 by {
                            if k < idx {
                                assert(color_rank(mid.color_of(vis.strong@[k] as int)) >= 2);
                            }
                        }
                    }
                }
            }
            proof {
                assert(vis.strong@.contains(vis.strong@[idx as int]));
            }
            idx += 1;
        }
        let mut widx: usize = 0;
        while widx < vis.weak.len()
            invariant
                self.wf(),
                widx <= vis.weak@.len(),
                State::same_except_colors(pre, *self),
                State::colors_advance(pre, *self),
                pre.grey@.len() <= self.grey@.len(),
                self.grey@.len() <= pre.grey@.len() + vis.strong@.len(),
                forall|k: int|
                    0 <= k < pre.grey@.len() ==> #[trigger] self.grey@[k] == pre.grey@[k],
                forall|k: int|
                    0 <= k < vis.strong@.len() && pre.valid_addr(#[trigger] vis.strong@[k] as int)
                        && pre.live(vis.strong@[k] as int) ==> color_rank(
                        self.color_of(vis.strong@[k] as int),
                    ) >= 2,
                forall|k: int|
                    0 <= k < widx && pre.valid_addr(#[trigger] vis.weak@[k] as int) && !pre.freed(
                        vis.weak@[k] as int,
                    ) ==> color_rank(self.color_of(vis.weak@[k] as int)) >= 1,
                forall|j: int|
                    pre.valid_addr(j) && !vis.strong@.contains(j as usize) && !vis.weak@.contains(
                        j as usize,
                    ) ==> #[trigger] self.color_of(j) == pre.color_of(j),
            decreases vis.weak@.len() - widx,
        {
            let ghost mid = *self;
            let a = vis.weak[widx];
            if a < self.slots.len() {
                if !self.slots[a].freed {
                    self.trace_weak(a);
                    proof {
                        lemma_frame_trans(pre, mid, *self);
                        lemma_advance_trans(pre, mid, *self);
                        assert(color_rank(self.color_of(a as int)) >= 1);
                        assert forall|k: int|
                            0 <= k < widx + 1 && pre.valid_addr(#[trigger] vis.weak@[k] as int)
                                && !pre.freed(vis.weak@[k] as int) implies color_rank(
                            self.color_of(vis.weak@[k] as int),
                        ) >= 1 by {
                            if k < widx {
                                assert(color_rank(mid.color_of(vis.weak@[k] as int)) >= 1);
                            }
                        }
                        assert forall|k: int|
                            0 <= k < vis.strong@.len() && pre.valid_addr(
                                #[trigger] vis.strong@[k] as int,
                            ) && pre.live(vis.strong@[k] as int) implies color_rank(
                            self.color_of(vis.strong@[k] as int),
                        ) >= 2 by {
                            assert(color_rank(mid.color_of(vis.strong@[k] as int)) >= 2);
                        }
                    }
                }
            }
            proof {
                assert(vis.weak@.contains(vis.weak@[widx as int]));
            }
            widx += 1;
        }
        proof {
            // A strong report whose type needs no tracing cannot have gone
            // grey: greys live on the worklist, whose entries all carry the
            // needs-trace flag.
            assert forall|k: int|
                0 <= k < vis.strong@.len() && pre.valid_addr(#[trigger] vis.strong@[k] as int)
                    && pre.live(vis.strong@[k] as int) && !pre.needs_trace_of(
                vis.strong@[k] as int,
            ) implies self.color_of(vis.strong@[k] as int) is Black by {
                let a = vis.strong@[k];
                assert(color_rank(self.color_of(a as int)) >= 2);
                if self.color_of(a as int) is Grey {
                    assert(self.slot_wf(a as int));
                    assert(self.grey@.contains(a));
                    let kg = choose|kg: int| 0 <= kg < self.grey@.len() && self.grey@[kg] == a;
                    assert(self.needs_trace_of(a as int));
                    assert(false);
                }
            }
        }
    }
}

/// The grey worklist never holds an allocation whose type opted out of
/// tracing, nor a dead or freed one: every entry is live, traceable and
/// stored as `Grey`.
pub proof fn lemma_worklist_entries_traceable<T>(st: State<T>, k: int)
    requires
        st.wf(),
        0 <= k < st.grey@.len(),
    ensures
        st.valid_addr(st.grey@[k] as int),
        st.needs_trace_of(st.grey@[k] as int),
        st.live(st.grey@[k] as int),
        !st.freed(st.grey@[k] as int),
        st.color_of(st.grey@[k] as int) == GcColor::Grey,
{
    assert(st.slot_wf(st.grey@[k] as int));
}

/// Every allocation appears on the global list at most once: addresses
/// strictly decrease along the list.
pub proof fn lemma_list_addresses_unique<T>(st: State<T>)
    requires
        st.wf(),
    ensures
        forall|k1: int, k2: int|
            0 <= k1 < k2 < st.the_list().len() ==> #[trigger] st.the_list()[k2]
                < #[trigger] st.the_list()[k1],
{
    lemma_list_sorted(st.slots@, st.head);
}

/// Once the grey worklist is drained, no allocation the engine can still
/// touch is stored as `Grey`: this is the state a completed mark leaves,
/// and the state the sweep requires.
pub proof fn lemma_drained_worklist_no_grey<T>(st: State<T>)
    requires
        st.wf(),
        st.grey@.len() == 0,
    ensures
        forall|i: int|
            st.valid_addr(i) && !st.freed(i) ==> !(#[trigger] st.color_of(i) is Grey),
{
    assert forall|i: int|
        st.valid_addr(i) && !st.freed(i) implies !(#[trigger] st.color_of(i) is Grey) by {
        assert(st.slot_wf(i));
    }
}

/// Once a trace observes an allocation — weakly (`WhiteWeak`) or strongly
/// (`Grey` or `Black`) — a completed mark leaves it weakly observed or
/// black: colors only advance, and no grey survives the drained worklist.
/// Plain white at the end of a mark means no trace reached the allocation
/// at all.
pub proof fn lemma_observed_ends_marked<T>(pre: State<T>, post: State<T>, i: int)
    requires
        State::colors_advance(pre, post),
        pre.valid_addr(i),
        color_rank(pre.color_of(i)) >= 1,
        !(post.color_of(i) is Grey),
    ensures
        post.color_of(i) is WhiteWeak || post.color_of(i) is Black,
{
}

/// An allocation the mark phase left merely weakly observed — or not
/// observed at all — has its payload dropped by the very next sweep: weak
/// observation alone never keeps a payload alive past one cycle.
pub proof fn lemma_unreached_payload_dropped<T>(pre: State<T>, post: State<T>, i: int)
    requires
        State::swept_outcome(pre, post, i),
        !(pre.color_of(i) is Black),
    ensures
        !post.live(i),
        post.slots@[i].value is None,
{
}

/// A dead, weakly-retained allocation that reaches the next sweep still
/// white — no weak handle observed it again — has its memory released by
/// that sweep: weak retention ends one cycle after the last weak trace.
pub proof fn lemma_dead_white_freed<T>(pre: State<T>, post: State<T>, i: int)
    requires
        State::swept_outcome(pre, post, i),
        pre.color_of(i) is White,
    ensures
        post.freed(i),
{
}

/// One sweep step extends the survivor record exactly when the processed
/// allocation was kept: afterwards the record still holds precisely the
/// non-white members of the processed prefix.
pub proof fn lemma_kept_extends<T>(
    pre: State<T>,
    l0: Seq<int>,
    kept0: Seq<int>,
    kept: Seq<int>,
    j: int,
    c: int,
)
    requires
        0 <= j < l0.len(),
        l0[j] == c,
        forall|x: int|
            kept0.contains(x) <==> exists|m: int|
                0 <= m < j && #[trigger] l0[m] == x && !(pre.color_of(l0[m]) is White),
        kept == if pre.color_of(c) is White {
            kept0
        } else {
            kept0.push(c)
        },
    ensures
        forall|x: int|
            kept.contains(x) <==> exists|m: int|
                0 <= m < j + 1 && #[trigger] l0[m] == x && !(pre.color_of(l0[m]) is White),
{
    assert forall|x: int|
        kept.contains(x) <==> exists|m: int|
            0 <= m < j + 1 && #[trigger] l0[m] == x && !(pre.color_of(l0[m]) is White) by {
        if kept.contains(x) {
            if kept0.contains(x) {
                let m = choose|m: int|
                    0 <= m < j && #[trigger] l0[m] == x && !(pre.color_of(l0[m]) is White);
                assert(0 <= m < j + 1 && l0[m] == x && !(pre.color_of(l0[m]) is White));
            } else {
                assert(x == c);
                assert(l0[j] == x && !(pre.color_of(l0[j]) is White));
            }
        }
        if exists|m: int|
            0 <= m < j + 1 && #[trigger] l0[m] == x && !(pre.color_of(l0[m]) is White) {
            let m = choose|m: int|
                0 <= m < j + 1 && #[trigger] l0[m] == x && !(pre.color_of(l0[m]) is White);
            if m < j {
                assert(kept0.contains(x));
                assert(kept.contains(x));
            } else {
                assert(x == c && !(pre.color_of(c) is White));
                assert(kept == kept0.push(c));
                assert(kept.contains(x));
            }
        }
    }
}

/// A sweep step that changes a slot's color, live flag or payload — but no
/// link — leaves the shape of the list alone: the full list and the chain
/// from the sweep cursor read the same before and after.
pub proof fn lemma_sweep_keep<T>(a: State<T>, b: State<T>, cursor: Option<usize>)
    requires
        links_ok(a.slots@),
        node_in_range(a.slots@, a.head),
        node_in_range(a.slots@, cursor),
        b.slots@.len() == a.slots@.len(),
        b.head == a.head,
        forall|i: int|
            0 <= i < a.slots@.len() ==> b.slots@[i].header.spec_next() == #[trigger] a.slots@[i].header.spec_next(),
    ensures
        links_ok(b.slots@),
        b.the_list() == a.the_list(),
        list_from(b.slots@, cursor) == list_from(a.slots@, cursor),
{
    assert forall|i: int| 0 <= i < b.slots@.len() implies node_ok(b.slots@, i) by {
        assert(node_ok(a.slots@, i));
    }
    lemma_list_from_agree_below(a.slots@, b.slots@, a.head, a.slots@.len() as int);
    lemma_list_from_agree_below(a.slots@, b.slots@, cursor, a.slots@.len() as int);
}

/// Splicing the sweep's current allocation out of the list — redirecting
/// the last survivor's link past it — removes exactly that allocation: the
/// list now reads as the survivors followed by the rest of the chain,
/// which is itself untouched.
pub proof fn lemma_sweep_unlink<T>(
    a: State<T>,
    b: State<T>,
    kept: Seq<int>,
    prev: usize,
    curr: usize,
    next: Option<usize>,
)
    requires
        links_ok(a.slots@),
        node_in_range(a.slots@, a.head),
        b.slots@.len() == a.slots@.len(),
        b.head == a.head,
        0 <= (prev as int) < a.slots@.len(),
        0 <= (curr as int) < a.slots@.len(),
        a.the_list() == kept + list_from(a.slots@, Some(curr)),
        kept.len() > 0,
        kept.last() == prev as int,
        a.hdr_of(prev as int).spec_next() == Some(curr),
        a.hdr_of(curr as int).spec_next() == next,
        forall|i: int|
            0 <= i < a.slots@.len() && i != prev as int ==> b.slots@[i] == #[trigger] a.slots@[i],
        b.hdr_of(prev as int).spec_next() == next,
    ensures
        links_ok(b.slots@),
        b.the_list() == kept + list_from(b.slots@, next),
        list_from(b.slots@, next) == list_from(a.slots@, next),
{
    lemma_list_from_props(a.slots@, a.head);
    let l = a.the_list();
    let k = kept.len() - 1;
    assert(l[k] == prev as int);
    assert(list_from(a.slots@, Some(curr))[0] == curr as int);
    assert(l[k + 1] == curr as int);
    assert((curr as int) < (prev as int));
    assert(node_ok(a.slots@, curr as int));
    assert(match next {
        Some(n) => (n as int) < curr as int,
        None => true,
    });
    assert forall|i: int| 0 <= i < b.slots@.len() implies node_ok(b.slots@, i) by {
        assert(node_ok(a.slots@, i));
        if i != prev as int {
            assert(b.slots@[i] == a.slots@[i]);
        }
    }
    assert(forall|i: int|
        0 <= i < a.slots@.len() && i != prev as int ==> b.slots@[i].header.spec_next()
            == #[trigger] a.slots@[i].header.spec_next());
    lemma_list_from_unlink(a.slots@, b.slots@, a.head, k);
    assert(list_from(b.slots@, a.head) == l.take(k + 1) + list_from(
        b.slots@,
        b.slots@[prev as int].header.spec_next(),
    ));
    assert(l.take(k + 1) =~= kept);
    lemma_list_from_agree_below(a.slots@, b.slots@, next, prev as int);
}

/// Well-formedness only reads the arena, the head and the worklist as
/// values: two states that agree on those are equally well-formed.
pub proof fn lemma_wf_same_views<T>(a: State<T>, b: State<T>)
    requires
        a.wf(),
        b.slots@ == a.slots@,
        b.head == a.head,
        b.grey@ == a.grey@,
    ensures
        b.wf(),
{
    assert forall|i: int| b.valid_addr(i) implies b.slot_wf(i) by {
        assert(a.slot_wf(i));
        assert(b.the_list() == a.the_list());
    }
    assert forall|k: int|
        0 <= k < b.grey@.len() implies {
        let g = #[trigger] b.grey@[k] as int;
        &&& b.valid_addr(g)
        &&& b.color_of(g) == GcColor::Grey
        &&& b.live(g)
        &&& b.needs_trace_of(g)
    } by {
        assert(a.grey@[k] == b.grey@[k]);
    }
}

/// The frame of the marking operations composes.
pub proof fn lemma_frame_trans<T>(a: State<T>, b: State<T>, c: State<T>)
    requires
        State::same_except_colors(a, b),
        State::same_except_colors(b, c),
    ensures
        State::same_except_colors(a, c),
{
    assert forall|i: int| a.valid_addr(i) implies {
        &&& (#[trigger] c.slots@[i]).value == a.slots@[i].value
        &&& c.slots@[i].freed == a.slots@[i].freed
        &&& c.hdr_of(i).spec_next() == a.hdr_of(i).spec_next()
        &&& c.hdr_of(i).spec_is_live() == a.hdr_of(i).spec_is_live()
        &&& c.hdr_of(i).spec_needs_trace() == a.hdr_of(i).spec_needs_trace()
        &&& c.hdr_of(i).spec_vtable() == a.hdr_of(i).spec_vtable()
    } by {
        assert(b.valid_addr(i));
        assert(b.slots@[i].value == a.slots@[i].value);
    }
}

/// Color advancement composes.
pub proof fn lemma_advance_trans<T>(a: State<T>, b: State<T>, c: State<T>)
    requires
        State::colors_advance(a, b),
        State::colors_advance(b, c),
        b.slots@.len() == a.slots@.len(),
    ensures
        State::colors_advance(a, c),
{
    assert forall|i: int|
        a.valid_addr(i) implies color_rank(#[trigger] c.color_of(i)) >= color_rank(
        a.color_of(i),
    ) by {
        assert(b.valid_addr(i));
        assert(color_rank(b.color_of(i)) >= color_rank(a.color_of(i)));
    }
}

/// A color that has advanced past every other rank is black: advancement
/// never repaints a black allocation.
pub proof fn lemma_advance_keeps_black<T>(a: State<T>, b: State<T>, i: int)
    requires
        State::colors_advance(a, b),
        a.valid_addr(i),
        a.color_of(i) is Black,
    ensures
        b.color_of(i) is Black,
{
    assert(color_rank(b.color_of(i)) >= 3);
}

/// A marking step that leaves links, head and arena size alone leaves the
/// global list alone too, and keeps the links well-formed.
pub proof fn lemma_frame_list<T>(pre: State<T>, post: State<T>)
    requires
        links_ok(pre.slots@),
        node_in_range(pre.slots@, pre.head),
        State::same_except_colors(pre, post),
    ensures
        links_ok(post.slots@),
        node_in_range(post.slots@, post.head),
        post.the_list() == pre.the_list(),
{
    assert forall|i: int| 0 <= i < post.slots@.len() implies node_ok(post.slots@, i) by {
        assert(node_ok(pre.slots@, i));
        assert(post.hdr_of(i).spec_next() == pre.hdr_of(i).spec_next());
    }
    lemma_list_from_agree_below(pre.slots@, post.slots@, pre.head, pre.slots@.len() as int);
}

/// The position of a color in the order marking advances through.
pub open spec fn color_rank(c: GcColor) -> int {
    match c {
        GcColor::White => 0,
        GcColor::WhiteWeak => 1,
        GcColor::Grey => 2,
        GcColor::Black => 3,
    }
}

/// The number of slots whose stored color is not `Black`: the measure that
/// shrinks as marking drains the grey worklist.
pub open spec fn count_pending<T>(s: Seq<AllocationInner<T>>) -> nat
    decreases s.len(),
{
    if s.len() == 0 {
        0nat
    } else {
        count_pending(s.drop_last()) + if s.last().header.spec_color() is Black {
            0nat
        } else {
            1nat
        }
    }
}

/// Painting slots black never increases the pending count.
pub proof fn lemma_count_pending_le<T>(s1: Seq<AllocationInner<T>>, s2: Seq<AllocationInner<T>>)
    requires
        s1.len() == s2.len(),
        forall|i: int|
            0 <= i < s1.len() && s1[i].header.spec_color() is Black ==> (
            #[trigger] s2[i].header.spec_color()) is Black,
    ensures
        count_pending(s2) <= count_pending(s1),
    decreases s1.len(),
{
    if s1.len() > 0 {
        lemma_count_pending_le(s1.drop_last(), s2.drop_last());
    }
}

/// Painting one pending slot black strictly shrinks the pending count.
pub proof fn lemma_count_pending_lt<T>(
    s1: Seq<AllocationInner<T>>,
    s2: Seq<AllocationInner<T>>,
    t: int,
)
    requires
        s1.len() == s2.len(),
        forall|i: int|
            0 <= i < s1.len() && s1[i].header.spec_color() is Black ==> (
            #[trigger] s2[i].header.spec_color()) is Black,
        0 <= t < s1.len(),
        !(s1[t].header.spec_color() is Black),
        s2[t].header.spec_color() is Black,
    ensures
        count_pending(s2) < count_pending(s1),
    decreases s1.len(),
{
    if t == s1.len() - 1 {
        lemma_count_pending_le(s1.drop_last(), s2.drop_last());
    } else {
        lemma_count_pending_lt(s1.drop_last(), s2.drop_last(), t);
    }
}

} // verus!
