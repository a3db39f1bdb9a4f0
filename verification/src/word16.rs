//! `u16` as a bit field of 16 bits.

use vstd::prelude::*;
use std::ops::Range;
use crate::bits::{raised, span, BitField};

verus! {

/// Whether bit `i` of `x` is set.
pub open spec fn u16_bit(x: u16, i: nat) -> bool {
    i < 16 && (x >> (i as u16)) & 1 == 1
}

/// How `&`, `|`, `^` and `!` act on bit `i`, and that zero has no bit set.
proof fn lemma_u16_bitwise(a: u16, b: u16, i: nat)
    ensures
        u16_bit(a & b, i) == (u16_bit(a, i) && u16_bit(b, i)),
        u16_bit(a | b, i) == (u16_bit(a, i) || u16_bit(b, i)),
        u16_bit(a ^ b, i) == (u16_bit(a, i) != u16_bit(b, i)),
        u16_bit(!a, i) == (i < 16 && !u16_bit(a, i)),
        !u16_bit(0, i),
{
    if i < 16 {
        let k = i as u16;
        assert({
            &&& (((a & b) >> k) & 1 == 1) == (((a >> k) & 1 == 1) && ((b >> k) & 1 == 1))
            &&& (((a | b) >> k) & 1 == 1) == (((a >> k) & 1 == 1) || ((b >> k) & 1 == 1))
            &&& (((a ^ b) >> k) & 1 == 1) == (((a >> k) & 1 == 1) != ((b >> k) & 1 == 1))
            &&& (((!a) >> k) & 1 == 1) == !((a >> k) & 1 == 1)
            &&& (0u16 >> k) & 1 == 0
        }) by (bit_vector)
            requires
                k < 16,
        ;
    }
}

/// A nonzero value has a set bit at or above `from`, if anything is left
/// there.
proof fn lemma_u16_set_bit(x: u16, from: nat) -> (k: nat)
    requires
        from < 16,
        x >> (from as u16) != 0,
    ensures
        from <= k,
        u16_bit(x, k),
    decreases 16 - from,
{
    let f = from as u16;
    if (x >> f) & 1 == 1 {
        from
    } else {
        let g = (from + 1) as u16;
        assert(f < 16 - 1 && x >> g != 0) by (bit_vector)
            requires
                f < 16,
                x >> f != 0,
                (x >> f) & 1 != 1,
                g == f + 1,
        ;
        lemma_u16_set_bit(x, from + 1)
    }
}

impl BitField for u16 {
    open spec fn width() -> nat {
        16
    }

    open spec fn ones(self) -> Set<nat> {
        Set::new(|i: nat| u16_bit(self, i))
    }

    proof fn lemma_width() {
    }

    proof fn lemma_ones_in_width(self) {
    }

    fn bits() -> (n: u8) {
        16
    }

    fn zero() -> (r: Self) {
        proof {
            assert forall|i: nat| !u16_bit(0, i) by {
                lemma_u16_bitwise(0, 0, i);
            }
            assert(0u16.ones() =~= Set::<nat>::empty());
        }
        0
    }

    fn bit(index: u8) -> (r: Self) {
        let n = index as u16;
        let r = 1u16 << n;
        proof {
            assert forall|i: nat| u16_bit(r, i) == (i == index as nat) by {
                if i < 16 {
                    let k = i as u16;
                    assert((((1u16 << n) >> k) & 1 == 1) == (k == n)) by (bit_vector)
                        requires
                            n < 16,
                            k < 16,
                    ;
                }
            }
            assert(r.ones() =~= set![index as nat]);
        }
        r
    }

    fn bit_mask(range: Range<u8>) -> (r: Self) {
        let start = range.start as u16;
        let end = range.end as u16;
        let below_end = if end == 16 {
            u16::MAX
        } else {
            !(u16::MAX << end)
        };
        let from_start = if start == 16 {
            0
        } else {
            u16::MAX << start
        };
        let r = from_start & below_end;
        proof {
            assert forall|i: nat| u16_bit(r, i) == (start <= i < end) by {
                if i < 16 {
                    let k = i as u16;
                    assert(((r >> k) & 1 == 1) == (start <= k < end)) by (bit_vector)
                        requires
                            k < 16,
                            start <= end <= 16,
                            below_end == (if end == 16 {
                                u16::MAX
                            } else {
                                !(u16::MAX << end)
                            }),
                            from_start == (if start == 16 {
                                0
                            } else {
                                u16::MAX << start
                            }),
                            r == from_start & below_end,
                    ;
                }
            }
            assert(r.ones() =~= span(range.start as nat, range.end as nat));
        }
        r
    }

    fn and(self, other: Self) -> (r: Self) {
        proof {
            assert forall|i: nat|
                u16_bit(self & other, i) == (u16_bit(self, i) && u16_bit(other, i)) by {
                lemma_u16_bitwise(self, other, i);
            }
            assert((self & other).ones() =~= self.ones().intersect(other.ones()));
        }
        self & other
    }

    fn or(self, other: Self) -> (r: Self) {
        proof {
            assert forall|i: nat|
                u16_bit(self | other, i) == (u16_bit(self, i) || u16_bit(other, i)) by {
                lemma_u16_bitwise(self, other, i);
            }
            assert((self | other).ones() =~= self.ones().union(other.ones()));
        }
        self | other
    }

    fn xor(self, other: Self) -> (r: Self) {
        proof {
            assert forall|i: nat|
                u16_bit(self ^ other, i) == (u16_bit(self, i) != u16_bit(other, i)) by {
                lemma_u16_bitwise(self, other, i);
            }
            assert((self ^ other).ones() =~= self.ones().difference(other.ones()).union(
                other.ones().difference(self.ones()),
            ));
        }
        self ^ other
    }

    fn not(self) -> (r: Self) {
        proof {
            assert forall|i: nat| u16_bit(!self, i) == (i < 16 && !u16_bit(self, i)) by {
                lemma_u16_bitwise(self, self, i);
            }
            assert((!self).ones() =~= span(0, 16).difference(self.ones()));
        }
        !self
    }

    fn shl(self, by: u8) -> (r: Self) {
        let n = by as u16;
        let r = self << n;
        proof {
            assert forall|i: nat|
                u16_bit(r, i) == (by <= i < 16 && u16_bit(self, (i - by) as nat)) by {
                if i < 16 {
                    let k = i as u16;
                    let d = if k >= n {
                        (k - n) as u16
                    } else {
                        0
                    };
                    assert((((self << n) >> k) & 1 == 1) == (k >= n && (self >> d) & 1 == 1))
                        by (bit_vector)
                        requires
                            n < 16,
                            k < 16,
                            k >= n ==> d == k - n,
                    ;
                }
            }
            assert(r.ones() =~= raised(self.ones(), by as nat, 16));
        }
        r
    }

    fn has_bits(self, mask: Self) -> (r: bool) {
        let r = self & mask == mask;
        proof {
            if r {
                assert forall|i: nat| u16_bit(mask, i) implies u16_bit(self, i) by {
                    lemma_u16_bitwise(self, mask, i);
                }
            } else {
                let d = mask & !self;
                assert(d >> 0 != 0) by (bit_vector)
                    requires
                        self & mask != mask,
                        d == mask & !self,
                ;
                let k = lemma_u16_set_bit(d, 0);
                lemma_u16_bitwise(mask, !self, k);
                lemma_u16_bitwise(self, self, k);
                assert(mask.ones().contains(k) && !self.ones().contains(k));
            }
        }
        r
    }

    fn same(self, other: Self) -> (r: bool) {
        self == other
    }
}

} // verus!
