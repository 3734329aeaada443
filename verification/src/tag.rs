//! Utilities for packing small flag values into the low bits of an aligned
//! machine word.
//!
//! A pointer to a value whose alignment is at least `TAG_ALIGN` always has its
//! low bits clear, so those bits can carry flags. Here the word is modelled as
//! a plain `usize`; `untag` recovers the aligned part, while `get`, `set` and
//! `set_bool` read and write the flag bits under a mask. Every mask must be
//! smaller than the alignment, so that flag updates never disturb the aligned
//! part of the word.

use vstd::prelude::*;

verus! {

/// Alignment assumed for every tagged word: the low four bits are free.
pub const TAG_ALIGN: usize = 16;

/// The aligned part of a tagged word (the stored pointer value).
pub open spec fn spec_untag(tagged: usize) -> usize {
    tagged & !0xf
}

/// Masks off the tag bits and yields the aligned word.
pub fn untag(tagged: usize) -> (r: usize)
    ensures
        r == spec_untag(tagged),
{
    tagged & !(TAG_ALIGN - 1)
}

/// Reads the tag bits selected by `mask`.
pub fn get(tagged: usize, mask: usize) -> (r: usize)
    requires
        mask < TAG_ALIGN,
    ensures
        r == tagged & mask,
{
    tagged & mask
}

/// Replaces the tag bits selected by `mask` with `tag`, leaving every other
/// bit of the word as it was.
pub fn set(word: &mut usize, mask: usize, tag: usize)
    requires
        mask < TAG_ALIGN,
    ensures
        *final(word) == (*old(word) & !mask) | (tag & mask),
{
    *word = (*word & !mask) | (tag & mask);
}

/// Sets or clears a single tag bit.
pub fn set_bool(word: &mut usize, mask: usize, value: bool)
    requires
        mask < TAG_ALIGN,
    ensures
        *final(word) == if value {
            (*old(word) & !mask) | mask
        } else {
            *old(word) & !mask
        },
{
    *word = (*word & !mask) | (if value { mask } else { 0 });
    proof {
        let w = *old(word);
        assert((w & !mask) | 0 == w & !mask) by (bit_vector);
    }
}

} // verus!
