//! `u32` as a bit field of 32 bits.

use vstd::prelude::*;
use std::ops::Range;
use crate::bits::{raised, span, BitField};

verus! {

/// Whether bit `i` of `x` is set.
pub open spec fn u32_bit(x: u32, i: nat) -> bool {
    i < 32 && (x >> (i as u32)) & 1 == 1
}

/// How `&`, `|`, `^` and `!` act on bit `i`, and that zero has no bit set.
proof fn lemma_u32_bitwise(a: u32, b: u32, i: nat)
    ensures
        u32_bit(a & b, i) == (u32_bit(a, i) && u32_bit(b, i)),
        u32_bit(a | b, i) == (u32_bit(a, i) || u32_bit(b, i)),
        u32_bit(a ^ b, i) == (u32_bit(a, i) != u32_bit(b, i)),
        u32_bit(!a, i) == (i < 32 && !u32_bit(a, i)),
        !u32_bit(0, i),
{
    if i < 32 {
        let k = i as u32;
        assert({
            &&& (((a & b) >> k) & 1 == 1) == (((a >> k) & 1 == 1) && ((b >> k) & 1 == 1))
            &&& (((a | b) >> k) & 1 == 1) == (((a >> k) & 1 == 1) || ((b >> k) & 1 == 1))
            &&& (((a ^ b) >> k) & 1 == 1) == (((a >> k) & 1 == 1) != ((b >> k) & 1 == 1))
            &&& (((!a) >> k) & 1 == 1) == !((a >> k) & 1 == 1)
            &&& (0u32 >> k) & 1 == 0
        }) by (bit_vector)
            requires
                k < 32,
        ;
    }
}

/// A nonzero value has a set bit at or above `from`, if anything is left
/// there.
proof fn lemma_u32_set_bit(x: u32, from: nat) -> (k: nat)
    requires
        from < 32,
        x >> (from as u32) != 0,
    ensures
        from <= k,
        u32_bit(x, k),
    decreases 32 - from,
{
    let f = from as u32;
    if (x >> f) & 1 == 1 {
        from
    } else {
        let g = (from + 1) as u32;
        assert(f < 32 - 1 && x >> g != 0) by (bit_vector)
            requires
                f < 32,
                x >> f != 0,
                (x >> f) & 1 != 1,
                g == f + 1,
        ;
        lemma_u32_set_bit(x, from + 1)
    }
}

impl BitField for u32 {
    open spec fn width() -> nat {
        32
    }

    open spec fn ones(self) -> Set<nat> {
        Set::new(|i: nat| u32_bit(self, i))
    }

    proof fn lemma_width() {
    }

    proof fn lemma_ones_in_width(self) {
    }

    fn bits() -> (n: u8) {
        32
    }

    fn zero() -> (r: Self) {
        proof {
            assert forall|i: nat| !u32_bit(0, i) by {
                lemma_u32_bitwise(0, 0, i);
            }
            assert(0u32.ones() =~= Set::<nat>::empty());
        }
        0
    }

    fn bit(index: u8) -> (r: Self) {
        let n = index as u32;
        let r = 1u32 << n;
        proof {
            assert forall|i: nat| u32_bit(r, i) == (i == index as nat) by {
                if i < 32 {
                    let k = i as u32;
                    assert((((1u32 << n) >> k) & 1 == 1) == (k == n)) by (bit_vector)
                        requires
                            n < 32,
                            k < 32,
                    ;
                }
            }
            assert(r.ones() =~= set![index as nat]);
        }
        r
    }

    fn bit_mask(range: Range<u8>) -> (r: Self) {
        let start = range.start as u32;
        let end = range.end as u32;
        let below_end = if end == 32 {
            u32::MAX
        } else {
            !(u32::MAX << end)
        };
        let from_start = if start == 32 {
            0
        } else {
            u32::MAX << start
        };
        let r = from_start & below_end;
        proof {
            assert forall|i: nat| u32_bit(r, i) == (start <= i < end) by {
                if i < 32 {
                    let k = i as u32;
                    assert(((r >> k) & 1 == 1) == (start <= k < end)) by (bit_vector)
                        requires
                            k < 32,
                            start <= end <= 32,
                            below_end == (if end == 32 {
                                u32::MAX
                            } else {
                                !(u32::MAX << end)
                            }),
                            from_start == (if start == 32 {
                                0
                            } else {
                                u32::MAX << start
                            }),
                            r == from_start & below_end,
                    ;
                }
            }
            assert(r.ones() =~= span(range.start as nat, range.end as nat));
        }
        r
    }

    fn and(self, other: Self) -> (r: Self) {
        proof {
            assert forall|i: nat|
                u32_bit(self & other, i) == (u32_bit(self, i) && u32_bit(other, i)) by {
                lemma_u32_bitwise(self, other, i);
            }
            assert((self & other).ones() =~= self.ones().intersect(other.ones()));
        }
        self & other
    }

    fn or(self, other: Self) -> (r: Self) {
        proof {
            assert forall|i: nat|
                u32_bit(self | other, i) == (u32_bit(self, i) || u32_bit(other, i)) by {
                lemma_u32_bitwise(self, other, i);
            }
            assert((self | other).ones() =~= self.ones().union(other.ones()));
        }
        self | other
    }

    fn xor(self, other: Self) -> (r: Self) {
        proof {
            assert forall|i: nat|
                u32_bit(self ^ other, i) == (u32_bit(self, i) != u32_bit(other, i)) by {
                lemma_u32_bitwise(self, other, i);
            }
            assert((self ^ other).ones() =~= self.ones().difference(other.ones()).union(
                other.ones().difference(self.ones()),
            ));
        }
        self ^ other
    }

    fn not(self) -> (r: Self) {
        proof {
            assert forall|i: nat| u32_bit(!self, i) == (i < 32 && !u32_bit(self, i)) by {
                lemma_u32_bitwise(self, self, i);
            }
            assert((!self).ones() =~= span(0, 32).difference(self.ones()));
        }
        !self
    }

    fn shl(self, by: u8) -> (r: Self) {
        let n = by as u32;
        let r = self << n;
        proof {
            assert forall|i: nat|
                u32_bit(r, i) == (by <= i < 32 && u32_bit(self, (i - by) as nat)) by {
                if i < 32 {
                    let k = i as u32;
                    let d = if k >= n {
                        (k - n) as u32
                    } else {
                        0
                    };
                    assert((((self << n) >> k) & 1 == 1) == (k >= n && (self >> d) & 1 == 1))
                        by (bit_vector)
                        requires
                            n < 32,
                            k < 32,
                            k >= n ==> d == k - n,
                    ;
                }
            }
            assert(r.ones() =~= raised(self.ones(), by as nat, 32));
        }
        r
    }

    fn has_bits(self, mask: Self) -> (r: bool) {
        let r = self & mask == mask;
        proof {
            if r {
                assert forall|i: nat| u32_bit(mask, i) implies u32_bit(self, i) by {
                    lemma_u32_bitwise(self, mask, i);
                }
            } else {
                let d = mask & !self;
                assert(d >> 0 != 0) by (bit_vector)
                    requires
                        self & mask != mask,
                        d == mask & !self,
                ;
                let k = lemma_u32_set_bit(d, 0);
                lemma_u32_bitwise(mask, !self, k);
                lemma_u32_bitwise(self, self, k);
                assert(mask.ones().contains(k) && !self.ones().contains(k));
            }
        }
        r
    }

    fn same(self, other: Self) -> (r: bool) {
        self == other
    }
}

} // verus!
