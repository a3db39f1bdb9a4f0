//! `u64` as a bit field of 64 bits.

use vstd::prelude::*;
use std::ops::Range;
use crate::bits::{raised, span, BitField};

verus! {

/// Whether bit `i` of `x` is set.
pub open spec fn u64_bit(x: u64, i: nat) -> bool {
    i < 64 && (x >> (i as u64)) & 1 == 1
}

/// How `&`, `|`, `^` and `!` act on bit `i`, and that zero has no bit set.
proof fn lemma_u64_bitwise(a: u64, b: u64, i: nat)
    ensures
        u64_bit(a & b, i) == (u64_bit(a, i) && u64_bit(b, i)),
        u64_bit(a | b, i) == (u64_bit(a, i) || u64_bit(b, i)),
        u64_bit(a ^ b, i) == (u64_bit(a, i) != u64_bit(b, i)),
        u64_bit(!a, i) == (i < 64 && !u64_bit(a, i)),
        !u64_bit(0, i),
{
    if i < 64 {
        let k = i as u64;
        assert({
            &&& (((a & b) >> k) & 1 == 1) == (((a >> k) & 1 == 1) && ((b >> k) & 1 == 1))
            &&& (((a | b) >> k) & 1 == 1) == (((a >> k) & 1 == 1) || ((b >> k) & 1 == 1))
            &&& (((a ^ b) >> k) & 1 == 1) == (((a >> k) & 1 == 1) != ((b >> k) & 1 == 1))
            &&& (((!a) >> k) & 1 == 1) == !((a >> k) & 1 == 1)
            &&& (0u64 >> k) & 1 == 0
        }) by (bit_vector)
            requires
                k < 64,
        ;
    }
}

/// A nonzero value has a set bit at or above `from`, if anything is left
/// there.
proof fn lemma_u64_set_bit(x: u64, from: nat) -> (k: nat)
    requires
        from < 64,
        x >> (from as u64) != 0,
    ensures
        from <= k,
        u64_bit(x, k),
    decreases 64 - from,
{
    let f = from as u64;
    if (x >> f) & 1 == 1 {
        from
    } else {
        let g = (from + 1) as u64;
        assert(f < 64 - 1 && x >> g != 0) by (bit_vector)
            requires
                f < 64,
                x >> f != 0,
                (x >> f) & 1 != 1,
                g == f + 1,
        ;
        lemma_u64_set_bit(x, from + 1)
    }
}

impl BitField for u64 {
    open spec fn width() -> nat {
        64
    }

    open spec fn ones(self) -> Set<nat> {
        Set::new(|i: nat| u64_bit(self, i))
    }

    proof fn lemma_width() {
    }

    proof fn lemma_ones_in_width(self) {
    }

    fn bits() -> (n: u8) {
        64
    }

    fn zero() -> (r: Self) {
        proof {
            assert forall|i: nat| !u64_bit(0, i) by {
                lemma_u64_bitwise(0, 0, i);
            }
            assert(0u64.ones() =~= Set::<nat>::empty());
        }
        0
    }

    fn bit(index: u8) -> (r: Self) {
        let n = index as u64;
        let r = 1u64 << n;
        proof {
            assert forall|i: nat| u64_bit(r, i) == (i == index as nat) by {
                if i < 64 {
                    let k = i as u64;
                    assert((((1u64 << n) >> k) & 1 == 1) == (k == n)) by (bit_vector)
                        requires
                            n < 64,
                            k < 64,
                    ;
                }
            }
            assert(r.ones() =~= set![index as nat]);
        }
        r
    }

    fn bit_mask(range: Range<u8>) -> (r: Self) {
        let start = range.start as u64;
        let end = range.end as u64;
        let below_end = if end == 64 {
            u64::MAX
        } else {
            !(u64::MAX << end)
        };
        let from_start = if start == 64 {
            0
        } else {
            u64::MAX << start
        };
        let r = from_start & below_end;
        proof {
            assert forall|i: nat| u64_bit(r, i) == (start <= i < end) by {
                if i < 64 {
                    let k = i as u64;
                    assert(((r >> k) & 1 == 1) == (start <= k < end)) by (bit_vector)
                        requires
                            k < 64,
                            start <= end <= 64,
                            below_end == (if end == 64 {
                                u64::MAX
                            } else {
                                !(u64::MAX << end)
                            }),
                            from_start == (if start == 64 {
                                0
                            } else {
                                u64::MAX << start
                            }),
                            r == from_start & below_end,
                    ;
                }
            }
            assert(r.ones() =~= span(range.start as nat, range.end as nat));
        }
        r
    }

    fn and(self, other: Self) -> (r: Self) {
        proof {
            assert forall|i: nat|
                u64_bit(self & other, i) == (u64_bit(self, i) && u64_bit(other, i)) by {
                lemma_u64_bitwise(self, other, i);
            }
            assert((self & other).ones() =~= self.ones().intersect(other.ones()));
        }
        self & other
    }

    fn or(self, other: Self) -> (r: Self) {
        proof {
            assert forall|i: nat|
                u64_bit(self | other, i) == (u64_bit(self, i) || u64_bit(other, i)) by {
                lemma_u64_bitwise(self, other, i);
            }
            assert((self | other).ones() =~= self.ones().union(other.ones()));
        }
        self | other
    }

    fn xor(self, other: Self) -> (r: Self) {
        proof {
            assert forall|i: nat|
                u64_bit(self ^ other, i) == (u64_bit(self, i) != u64_bit(other, i)) by {
                lemma_u64_bitwise(self, other, i);
            }
            assert((self ^ other).ones() =~= self.ones().difference(other.ones()).union(
                other.ones().difference(self.ones()),
            ));
        }
        self ^ other
    }

    fn not(self) -> (r: Self) {
        proof {
            assert forall|i: nat| u64_bit(!self, i) == (i < 64 && !u64_bit(self, i)) by {
                lemma_u64_bitwise(self, self, i);
            }
            assert((!self).ones() =~= span(0, 64).difference(self.ones()));
        }
        !self
    }

    fn shl(self, by: u8) -> (r: Self) {
        let n = by as u64;
        let r = self << n;
        proof {
            assert forall|i: nat|
                u64_bit(r, i) == (by <= i < 64 && u64_bit(self, (i - by) as nat)) by {
                if i < 64 {
                    let k = i as u64;
                    let d = if k >= n {
                        (k - n) as u64
                    } else {
                        0
                    };
                    assert((((self << n) >> k) & 1 == 1) == (k >= n && (self >> d) & 1 == 1))
                        by (bit_vector)
                        requires
                            n < 64,
                            k < 64,
                            k >= n ==> d == k - n,
                    ;
                }
            }
            assert(r.ones() =~= raised(self.ones(), by as nat, 64));
        }
        r
    }

    fn has_bits(self, mask: Self) -> (r: bool) {
        let r = self & mask == mask;
        proof {
            if r {
                assert forall|i: nat| u64_bit(mask, i) implies u64_bit(self, i) by {
                    lemma_u64_bitwise(self, mask, i);
                }
            } else {
                let d = mask & !self;
                assert(d >> 0 != 0) by (bit_vector)
                    requires
                        self & mask != mask,
                        d == mask & !self,
                ;
                let k = lemma_u64_set_bit(d, 0);
                lemma_u64_bitwise(mask, !self, k);
                lemma_u64_bitwise(self, self, k);
                assert(mask.ones().contains(k) && !self.ones().contains(k));
            }
        }
        r
    }

    fn same(self, other: Self) -> (r: bool) {
        self == other
    }
}

} // verus!
