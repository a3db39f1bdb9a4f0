//! `u128` as a bit field of 128 bits.

use vstd::prelude::*;
use std::ops::Range;
use crate::bits::{raised, span, BitField};

verus! {

/// Whether bit `i` of `x` is set.
pub open spec fn u128_bit(x: u128, i: nat) -> bool {
    i < 128 && (x >> (i as u128)) & 1 == 1
}

/// How `&`, `|`, `^` and `!` act on bit `i`, and that zero has no bit set.
proof fn lemma_u128_bitwise(a: u128, b: u128, i: nat)
    ensures
        u128_bit(a & b, i) == (u128_bit(a, i) && u128_bit(b, i)),
        u128_bit(a | b, i) == (u128_bit(a, i) || u128_bit(b, i)),
        u128_bit(a ^ b, i) == (u128_bit(a, i) != u128_bit(b, i)),
        u128_bit(!a, i) == (i < 128 && !u128_bit(a, i)),
        !u128_bit(0, i),
{
    if i < 128 {
        let k = i as u128;
        assert({
            &&& (((a & b) >> k) & 1 == 1) == (((a >> k) & 1 == 1) && ((b >> k) & 1 == 1))
            &&& (((a | b) >> k) & 1 == 1) == (((a >> k) & 1 == 1) || ((b >> k) & 1 == 1))
            &&& (((a ^ b) >> k) & 1 == 1) == (((a >> k) & 1 == 1) != ((b >> k) & 1 == 1))
            &&& (((!a) >> k) & 1 == 1) == !((a >> k) & 1 == 1)
            &&& (0u128 >> k) & 1 == 0
        }) by (bit_vector)
            requires
                k < 128,
        ;
    }
}

/// A nonzero value has a set bit at or above `from`, if anything is left
/// there.
proof fn lemma_u128_set_bit(x: u128, from: nat) -> (k: nat)
    requires
        from < 128,
        x >> (from as u128) != 0,
    ensures
        from <= k,
        u128_bit(x, k),
    decreases 128 - from,
{
    let f = from as u128;
    if (x >> f) & 1 == 1 {
        from
    } else {
        let g = (from + 1) as u128;
        assert(f < 128 - 1 && x >> g != 0) by (bit_vector)
            requires
                f < 128,
                x >> f != 0,
                (x >> f) & 1 != 1,
                g == f + 1,
        ;
        lemma_u128_set_bit(x, from + 1)
    }
}

impl BitField for u128 {
    open spec fn width() -> nat {
        128
    }

    open spec fn ones(self) -> Set<nat> {
        Set::new(|i: nat| u128_bit(self, i))
    }

    proof fn lemma_width() {
    }

    proof fn lemma_ones_in_width(self) {
    }

    fn bits() -> (n: u8) {
        128
    }

    fn zero() -> (r: Self) {
        proof {
            assert forall|i: nat| !u128_bit(0, i) by {
                lemma_u128_bitwise(0, 0, i);
            }
            assert(0u128.ones() =~= Set::<nat>::empty());
        }
        0
    }

    fn bit(index: u8) -> (r: Self) {
        let n = index as u128;
        let r = 1u128 << n;
        proof {
            assert forall|i: nat| u128_bit(r, i) == (i == index as nat) by {
                if i < 128 {
                    let k = i as u128;
                    assert((((1u128 << n) >> k) & 1 == 1) == (k == n)) by (bit_vector)
                        requires
                            n < 128,
                            k < 128,
                    ;
                }
            }
            assert(r.ones() =~= set![index as nat]);
        }
        r
    }

    fn bit_mask(range: Range<u8>) -> (r: Self) {
        let start = range.start as u128;
        let end = range.end as u128;
        let below_end = if end == 128 {
            u128::MAX
        } else {
            !(u128::MAX << end)
        };
        let from_start = if start == 128 {
            0
        } else {
            u128::MAX << start
        };
        let r = from_start & below_end;
        proof {
            assert forall|i: nat| u128_bit(r, i) == (start <= i < end) by {
                if i < 128 {
                    let k = i as u128;
                    assert(((r >> k) & 1 == 1) == (start <= k < end)) by (bit_vector)
                        requires
                            k < 128,
                            start <= end <= 128,
                            below_end == (if end == 128 {
                                u128::MAX
                            } else {
                                !(u128::MAX << end)
                            }),
                            from_start == (if start == 128 {
                                0
                            } else {
                                u128::MAX << start
                            }),
                            r == from_start & below_end,
                    ;
                }
            }
            assert(r.ones() =~= span(range.start as nat, range.end as nat));
        }
        r
    }

    fn and(self, other: Self) -> (r: Self) {
        proof {
            assert forall|i: nat|
                u128_bit(self & other, i) == (u128_bit(self, i) && u128_bit(other, i)) by {
                lemma_u128_bitwise(self, other, i);
            }
            assert((self & other).ones() =~= self.ones().intersect(other.ones()));
        }
        self & other
    }

    fn or(self, other: Self) -> (r: Self) {
        proof {
            assert forall|i: nat|
                u128_bit(self | other, i) == (u128_bit(self, i) || u128_bit(other, i)) by {
                lemma_u128_bitwise(self, other, i);
            }
            assert((self | other).ones() =~= self.ones().union(other.ones()));
        }
        self | other
    }

    fn xor(self, other: Self) -> (r: Self) {
        proof {
            assert forall|i: nat|
                u128_bit(self ^ other, i) == (u128_bit(self, i) != u128_bit(other, i)) by {
                lemma_u128_bitwise(self, other, i);
            }
            assert((self ^ other).ones() =~= self.ones().difference(other.ones()).union(
                other.ones().difference(self.ones()),
            ));
        }
        self ^ other
    }

    fn not(self) -> (r: Self) {
        proof {
            assert forall|i: nat| u128_bit(!self, i) == (i < 128 && !u128_bit(self, i)) by {
                lemma_u128_bitwise(self, self, i);
            }
            assert((!self).ones() =~= span(0, 128).difference(self.ones()));
        }
        !self
    }

    fn shl(self, by: u8) -> (r: Self) {
        let n = by as u128;
        let r = self << n;
        proof {
            assert forall|i: nat|
                u128_bit(r, i) == (by <= i < 128 && u128_bit(self, (i - by) as nat)) by {
                if i < 128 {
                    let k = i as u128;
                    let d = if k >= n {
                        (k - n) as u128
                    } else {
                        0
                    };
                    assert((((self << n) >> k) & 1 == 1) == (k >= n && (self >> d) & 1 == 1))
                        by (bit_vector)
                        requires
                            n < 128,
                            k < 128,
                            k >= n ==> d == k - n,
                    ;
                }
            }
            assert(r.ones() =~= raised(self.ones(), by as nat, 128));
        }
        r
    }

    fn has_bits(self, mask: Self) -> (r: bool) {
        let r = self & mask == mask;
        proof {
            if r {
                assert forall|i: nat| u128_bit(mask, i) implies u128_bit(self, i) by {
                    lemma_u128_bitwise(self, mask, i);
                }
            } else {
                let d = mask & !self;
                assert(d >> 0 != 0) by (bit_vector)
                    requires
                        self & mask != mask,
                        d == mask & !self,
                ;
                let k = lemma_u128_set_bit(d, 0);
                lemma_u128_bitwise(mask, !self, k);
                lemma_u128_bitwise(self, self, k);
                assert(mask.ones().contains(k) && !self.ones().contains(k));
            }
        }
        r
    }

    fn same(self, other: Self) -> (r: bool) {
        self == other
    }
}

} // verus!
