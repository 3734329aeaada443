//! Per-allocation metadata: the mark-sweep color, the header whose tagged
//! vtable word carries the color and flag bits, and the allocation record
//! that pairs a header with its payload.
//!
//! An allocation lives at a fixed address for its whole life; addresses here
//! are indices into the engine's slot arena and are never reused. The header
//! holds the link to the next allocation in the global list and a single
//! tagged word: the aligned part is the address of the static per-type
//! vtable, while the low four bits encode the color (two bits), the
//! needs-trace flag and the live flag. Setters change only their own bits,
//! so the vtable address, once set, never changes.

use vstd::prelude::*;

use crate::tag;

verus! {

/// Mask of the two color bits in the tagged vtable word.
pub const COLOR_MASK: usize = 0x3;

/// Mask of the needs-trace bit in the tagged vtable word.
pub const NEEDS_TRACE_MASK: usize = 0x4;

/// Mask of the live bit in the tagged vtable word.
pub const LIVE_MASK: usize = 0x8;

/// The mark-sweep state of an allocation.
///
/// Between collection cycles only `White` and `WhiteWeak` occur. `Grey` is
/// stored only while the allocation sits on the grey worklist; `Black` only
/// between a completed mark and the following sweep.
#[derive(Clone, Copy, PartialEq, Eq, Structural, Debug)]
pub enum GcColor {
    /// Not reached by the current cycle's trace.
    White,
    /// Not reached strongly, but observed by a weak handle this cycle.
    WhiteWeak,
    /// Reached and fully traced.
    Black,
    /// On the grey worklist, awaiting a trace of its payload.
    Grey,
}

/// The two-bit encoding of a color inside the tagged word.
pub open spec fn color_code(c: GcColor) -> usize {
    match c {
        GcColor::White => 0,
        GcColor::WhiteWeak => 1,
        GcColor::Black => 2,
        GcColor::Grey => 3,
    }
}

/// The color denoted by the two low bits of a tagged word.
pub open spec fn decode_color(bits: usize) -> GcColor {
    if bits == 0 {
        GcColor::White
    } else if bits == 1 {
        GcColor::WhiteWeak
    } else if bits == 2 {
        GcColor::Black
    } else {
        GcColor::Grey
    }
}

/// Per-allocation metadata: the intrusive list link and the tagged vtable
/// word described in the module documentation.
#[derive(Clone, Copy)]
pub struct AllocationHeader {
    /// The next allocation in the global list, by address.
    pub next: Option<usize>,
    /// The vtable address with the color and flag bits packed into its low
    /// four bits.
    pub tagged_vtable: usize,
}

impl AllocationHeader {
    /// The color encoded in the tagged word.
    pub open spec fn spec_color(self) -> GcColor {
        decode_color(self.tagged_vtable & COLOR_MASK)
    }

    /// The needs-trace flag encoded in the tagged word.
    pub open spec fn spec_needs_trace(self) -> bool {
        self.tagged_vtable & NEEDS_TRACE_MASK != 0
    }

    /// The live flag encoded in the tagged word: whether the payload has not
    /// yet been dropped.
    pub open spec fn spec_is_live(self) -> bool {
        self.tagged_vtable & LIVE_MASK != 0
    }

    /// The vtable address: the tagged word with its flag bits cleared.
    pub open spec fn spec_vtable(self) -> usize {
        tag::spec_untag(self.tagged_vtable)
    }

    /// The intrusive list link.
    pub open spec fn spec_next(self) -> Option<usize> {
        self.next
    }

    /// A fresh header: no list link, color `White`, both flags clear, and
    /// the given vtable address stored in the tagged word.
    pub fn new(vtable: usize) -> (h: AllocationHeader)
        requires
            vtable % 16 == 0,
        ensures
            h.spec_next() is None,
            h.spec_color() == GcColor::White,
            !h.spec_needs_trace(),
            !h.spec_is_live(),
            h.spec_vtable() == vtable,
    {
        proof {
            assert(vtable % 16 == 0 ==> vtable & 0x3 == 0 && vtable & 0x4 == 0 && vtable & 0x8
                == 0 && vtable & !0xf == vtable) by (bit_vector);
        }
        AllocationHeader { next: None, tagged_vtable: vtable }
    }

    /// Gets the next allocation in the global list.
    pub fn next(&self) -> (r: Option<usize>)
        ensures
            r == self.spec_next(),
    {
        self.next
    }

    /// Sets the next allocation in the global list.
    pub fn set_next(&mut self, next: Option<usize>)
        ensures
            final(self).spec_next() == next,
            final(self).tagged_vtable == old(self).tagged_vtable,
    {
        self.next = next;
    }

    /// Reads the color from the tagged word.
    pub fn color(&self) -> (c: GcColor)
        ensures
            c == self.spec_color(),
    {
        proof {
            let w = self.tagged_vtable;
            assert(w & 0x3 < 4) by (bit_vector);
        }
        let bits = tag::get(self.tagged_vtable, COLOR_MASK);
        if bits == 0 {
            GcColor::White
        } else if bits == 1 {
            GcColor::WhiteWeak
        } else if bits == 2 {
            GcColor::Black
        } else {
            GcColor::Grey
        }
    }

    /// Writes the color bits, preserving the flag bits and the vtable
    /// address.
    pub fn set_color(&mut self, color: GcColor)
        ensures
            final(self).spec_color() == color,
            final(self).tagged_vtable & COLOR_MASK == color_code(color),
            final(self).spec_needs_trace() == old(self).spec_needs_trace(),
            final(self).spec_is_live() == old(self).spec_is_live(),
            final(self).spec_vtable() == old(self).spec_vtable(),
            final(self).spec_next() == old(self).spec_next(),
    {
        let code: usize = match color {
            GcColor::White => 0,
            GcColor::WhiteWeak => 1,
            GcColor::Black => 2,
            GcColor::Grey => 3,
        };
        tag::set(&mut self.tagged_vtable, COLOR_MASK, code);
        proof {
            let w = old(self).tagged_vtable;
            assert(((w & !0x3) | (code & 0x3)) & 0x3 == code && ((w & !0x3) | (code & 0x3)) & 0x4
                == w & 0x4 && ((w & !0x3) | (code & 0x3)) & 0x8 == w & 0x8 && ((w & !0x3) | (code
                & 0x3)) & !0xf == w & !0xf) by (bit_vector)
                requires
                    code < 4,
            ;
        }
    }

    /// Reads the needs-trace flag from the tagged word.
    pub fn needs_trace(&self) -> (r: bool)
        ensures
            r == self.spec_needs_trace(),
    {
        tag::get(self.tagged_vtable, NEEDS_TRACE_MASK) != 0
    }

    /// Writes the needs-trace flag, preserving the other bits.
    pub fn set_needs_trace(&mut self, needs_trace: bool)
        ensures
            final(self).spec_needs_trace() == needs_trace,
            final(self).spec_color() == old(self).spec_color(),
            final(self).spec_is_live() == old(self).spec_is_live(),
            final(self).spec_vtable() == old(self).spec_vtable(),
            final(self).spec_next() == old(self).spec_next(),
    {
        tag::set_bool(&mut self.tagged_vtable, NEEDS_TRACE_MASK, needs_trace);
        proof {
            let w = old(self).tagged_vtable;
            assert(((w & !0x4) | 0x4) & 0x3 == w & 0x3 && ((w & !0x4) | 0x4) & 0x8 == w & 0x8 && ((w
                & !0x4) | 0x4) & !0xf == w & !0xf && ((w & !0x4) | 0x4) & 0x4 != 0) by (bit_vector);
            assert((w & !0x4) & 0x3 == w & 0x3 && (w & !0x4) & 0x8 == w & 0x8 && (w & !0x4) & !0xf
                == w & !0xf && (w & !0x4) & 0x4 == 0) by (bit_vector);
        }
    }

    /// Reads the live flag from the tagged word.
    pub fn is_live(&self) -> (r: bool)
        ensures
            r == self.spec_is_live(),
    {
        tag::get(self.tagged_vtable, LIVE_MASK) != 0
    }

    /// Writes the live flag, preserving the other bits.
    pub fn set_live(&mut self, alive: bool)
        ensures
            final(self).spec_is_live() == alive,
            final(self).spec_color() == old(self).spec_color(),
            final(self).spec_needs_trace() == old(self).spec_needs_trace(),
            final(self).spec_vtable() == old(self).spec_vtable(),
            final(self).spec_next() == old(self).spec_next(),
    {
        tag::set_bool(&mut self.tagged_vtable, LIVE_MASK, alive);
        proof {
            let w = old(self).tagged_vtable;
            assert(((w & !0x8) | 0x8) & 0x3 == w & 0x3 && ((w & !0x8) | 0x8) & 0x4 == w & 0x4 && ((w
                & !0x8) | 0x8) & !0xf == w & !0xf && ((w & !0x8) | 0x8) & 0x8 != 0) by (bit_vector);
            assert((w & !0x8) & 0x3 == w & 0x3 && (w & !0x8) & 0x4 == w & 0x4 && (w & !0x8) & !0xf
                == w & !0xf && (w & !0x8) & 0x8 == 0) by (bit_vector);
        }
    }

    /// Returns the vtable address stored in the tagged word.
    pub fn vtable(&self) -> (r: usize)
        ensures
            r == self.spec_vtable(),
    {
        tag::untag(self.tagged_vtable)
    }
}

/// An allocation record: the header followed by the typed payload.
///
/// `value` is `None` once the payload has been dropped; the live flag in the
/// header mirrors this. `freed` records that the record's memory has been
/// released: a freed allocation is off the global list and must never be
/// touched again.
pub struct AllocationInner<T> {
    /// The allocation's metadata.
    pub header: AllocationHeader,
    /// The payload, present while the live flag is set.
    pub value: Option<T>,
    /// Whether the record's memory has been released.
    pub freed: bool,
}

/// Drops the payload of an allocation if it is still live, then releases the
/// record. The caller must have unlinked the allocation from the global list
/// first; nothing may observe it afterwards.
pub fn free_alloc<T>(alloc: &mut AllocationInner<T>)
    requires
        old(alloc).header.spec_is_live() <==> old(alloc).value is Some,
    ensures
        final(alloc).freed,
        final(alloc).value is None,
        !final(alloc).header.spec_is_live(),
        final(alloc).header.spec_color() == old(alloc).header.spec_color(),
        final(alloc).header.spec_needs_trace() == old(alloc).header.spec_needs_trace(),
        final(alloc).header.spec_vtable() == old(alloc).header.spec_vtable(),
        final(alloc).header.spec_next() == old(alloc).header.spec_next(),
{
    if alloc.header.is_live() {
        alloc.value = None;
        alloc.header.set_live(false);
    }
    alloc.freed = true;
}

} // verus!
