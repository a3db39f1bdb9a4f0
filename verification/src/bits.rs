//! Fixed-width bit fields and their model as sets of bit positions.

use vstd::prelude::*;
use std::ops::Range;

verus! {

/// The bit positions `start, start + 1, .., end - 1`.
pub open spec fn span(start: nat, end: nat) -> Set<nat> {
    Set::new(|i: nat| start <= i < end)
}

/// The positions of `ones` moved up by `by`, without those that leave a field
/// of `width` bits.
pub open spec fn raised(ones: Set<nat>, by: nat, width: nat) -> Set<nat> {
    Set::new(|i: nat| by <= i < width && ones.contains((i - by) as nat))
}

/// A fixed-width unsigned integer read as a set of bit positions.
///
/// `ones` is the model every contract speaks of: position `i` is in it when
/// bit `i` (counted from the least significant) is set. The trait knows
/// nothing about what the positions mean to a caller; indices and ranges are
/// the caller's to validate.
pub trait BitField: Copy + Sized {
    /// Number of bits in the field.
    spec fn width() -> nat;

    /// Positions of the set bits.
    spec fn ones(self) -> Set<nat>;

    /// The width is positive and can be written in a `u8`.
    proof fn lemma_width()
        ensures
            0 < Self::width() <= u8::MAX,
    ;

    /// Every set bit lies inside the field.
    proof fn lemma_ones_in_width(self)
        ensures
            forall|i: nat| #[trigger] self.ones().contains(i) ==> i < Self::width(),
    ;

    /// Number of bits in the field.
    fn bits() -> (n: u8)
        ensures
            n as nat == Self::width(),
    ;

    /// The field with no bit set.
    fn zero() -> (r: Self)
        ensures
            r.ones() == Set::<nat>::empty(),
    ;

    /// The field with exactly bit `index` set.
    fn bit(index: u8) -> (r: Self)
        requires
            (index as nat) < Self::width(),
        ensures
            r.ones() == set![index as nat],
    ;

    /// The field with exactly the bits of `range` set.
    fn bit_mask(range: Range<u8>) -> (r: Self)
        requires
            range.start <= range.end,
            range.end as nat <= Self::width(),
        ensures
            r.ones() == span(range.start as nat, range.end as nat),
    ;

    /// Bitwise AND.
    fn and(self, other: Self) -> (r: Self)
        ensures
            r.ones() == self.ones().intersect(other.ones()),
    ;

    /// Bitwise OR.
    fn or(self, other: Self) -> (r: Self)
        ensures
            r.ones() == self.ones().union(other.ones()),
    ;

    /// Bitwise XOR.
    fn xor(self, other: Self) -> (r: Self)
        ensures
            r.ones() == self.ones().difference(other.ones()).union(
                other.ones().difference(self.ones()),
            ),
    ;

    /// Bitwise complement within the field.
    fn not(self) -> (r: Self)
        ensures
            r.ones() == span(0, Self::width()).difference(self.ones()),
    ;

    /// Shift towards the most significant bit by `by` positions.
    fn shl(self, by: u8) -> (r: Self)
        requires
            (by as nat) < Self::width(),
        ensures
            r.ones() == raised(self.ones(), by as nat, Self::width()),
    ;

    /// Whether every bit of `mask` is set in `self`.
    fn has_bits(self, mask: Self) -> (r: bool)
        ensures
            r == mask.ones().subset_of(self.ones()),
    ;

    /// Whether two fields are the same value.
    fn same(self, other: Self) -> (r: bool)
        ensures
            r == (self == other),
    ;

    /// `*self = *self & other`.
    fn and_assign(&mut self, other: Self)
        ensures
            final(self).ones() == old(self).ones().intersect(other.ones()),
    {
        *self = self.and(other);
    }

    /// `*self = *self | other`.
    fn or_assign(&mut self, other: Self)
        ensures
            final(self).ones() == old(self).ones().union(other.ones()),
    {
        *self = self.or(other);
    }

    /// `*self = *self ^ other`.
    fn xor_assign(&mut self, other: Self)
        ensures
            final(self).ones() == old(self).ones().difference(other.ones()).union(
                other.ones().difference(old(self).ones()),
            ),
    {
        *self = self.xor(other);
    }
}

} // verus!
