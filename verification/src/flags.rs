//! Flags: the bits reserved for them, whether a layout fits a mask, and the
//! masks that stand for a flag and its variants.

use vstd::prelude::*;
use crate::bits::{span, BitField};

verus! {

/// A registered flag: a name and the bits reserved for it, counted from the
/// first bit above the component bits. The reserved bits are
/// `start, .., end - 1`; when `start >= end` there are none.
pub struct Flag<F> {
    pub id: F,
    pub start: u8,
    pub end: u8,
}

/// Whether some entry of `flags` is named `id`.
pub open spec fn knows_flag<F>(flags: Seq<Flag<F>>, id: F) -> bool {
    exists|i: int| 0 <= i < flags.len() && (#[trigger] flags[i]).id == id
}

/// The index of an entry named `id`.
pub open spec fn flag_slot<F>(flags: Seq<Flag<F>>, id: F) -> int {
    choose|i: int| 0 <= i < flags.len() && (#[trigger] flags[i]).id == id
}

/// No two entries share a name.
pub open spec fn distinct_flags<F>(flags: Seq<Flag<F>>) -> bool {
    forall|i: int, j: int|
        0 <= i < j < flags.len() ==> (#[trigger] flags[i]).id != (#[trigger] flags[j]).id
}

/// Number of bits a flag reserves.
pub open spec fn flag_width<F>(flag: Flag<F>) -> nat {
    if flag.start < flag.end {
        (flag.end - flag.start) as nat
    } else {
        0
    }
}

/// Number of bits all of `flags` reserve together.
pub open spec fn total_width<F>(flags: Seq<Flag<F>>) -> nat
    decreases flags.len(),
{
    if flags.len() == 0 {
        0
    } else {
        total_width(flags.drop_last()) + flag_width(flags.last())
    }
}

/// Two flags reserve no bit in common.
pub open spec fn apart<F>(a: Flag<F>, b: Flag<F>) -> bool {
    a.start >= a.end || b.start >= b.end || a.end <= b.start || b.end <= a.start
}

/// Whether `components` component bits followed by the bits of `flags` can be
/// laid out in a field of `width` bits: the widths add up to no more than
/// `width`, every reserved bit lies inside the field, and no bit is reserved
/// twice.
pub open spec fn layout_fits<F>(components: nat, flags: Seq<Flag<F>>, width: nat) -> bool {
    &&& components + total_width(flags) <= width
    &&& forall|i: int|
        0 <= i < flags.len() && (#[trigger] flags[i]).start < flags[i].end ==> components
            + flags[i].end <= width
    &&& forall|i: int, j: int|
        0 <= i < j < flags.len() ==> apart(#[trigger] flags[i], #[trigger] flags[j])
}

/// What a variant argument says in terms of bit positions.
pub open spec fn variant_ones<B: BitField>(variant: Option<B>) -> Option<Set<nat>> {
    match variant {
        Some(v) => Some(v.ones()),
        None => None,
    }
}

/// The mask that stands for a flag occupying the absolute positions
/// `lo, .., hi - 1`. Without a variant it is the whole range; with a variant
/// it is the variant's bits moved into the range, bit 0 of the variant landing
/// on `lo`, and whatever does not fit in the range dropped.
pub open spec fn flag_bits(lo: nat, hi: nat, variant: Option<Set<nat>>) -> Set<nat> {
    match variant {
        None => span(lo, hi),
        Some(v) => Set::new(|i: nat| lo <= i < hi && v.contains((i - lo) as nat)),
    }
}

/// What a mask answers when asked for a flag. `range` is the mask of the flag
/// without a variant. Asked for no variant, the answer is whether the flag is
/// present: whether the mask has any bit of the range. Asked for a variant,
/// with `wanted` the mask of that variant, the answer is whether the flag
/// equals it: whether the bits that the mask has in the range are exactly
/// those of `wanted`.
pub open spec fn flag_held(mask: Set<nat>, range: Set<nat>, wanted: Option<Set<nat>>) -> bool {
    match wanted {
        None => exists|i: nat| #[trigger] mask.contains(i) && range.contains(i),
        Some(bits) => mask.intersect(range) =~= bits,
    }
}

/// A prefix reserves no more bits than the whole.
pub proof fn lemma_total_width_prefix<F>(flags: Seq<Flag<F>>, n: int)
    requires
        0 <= n <= flags.len(),
    ensures
        total_width(flags.take(n)) <= total_width(flags),
    decreases flags.len(),
{
    if n < flags.len() {
        assert(flags.drop_last().take(n) =~= flags.take(n));
        lemma_total_width_prefix(flags.drop_last(), n);
    } else {
        assert(flags.take(n) =~= flags);
    }
}

/// In a list without repeated names a name is found at one index only.
pub proof fn lemma_flag_slot_unique<F>(flags: Seq<Flag<F>>, i: int)
    requires
        distinct_flags(flags),
        0 <= i < flags.len(),
    ensures
        knows_flag(flags, flags[i].id),
        flag_slot(flags, flags[i].id) == i,
{
    let j = flag_slot(flags, flags[i].id);
    assert(0 <= j < flags.len() && flags[j].id == flags[i].id);
}

/// The index of the entry named `id`, if there is one.
pub fn find_flag<F: BitField>(flags: &Vec<Flag<F>>, id: F) -> (found: Option<usize>)
    ensures
        match found {
            Some(i) => i < flags.len() && flags[i as int].id == id && forall|j: int|
                0 <= j < i ==> flags[j].id != id,
            None => !knows_flag(flags@, id),
        },
{
    let mut i: usize = 0;
    while i < flags.len()
        invariant
            i <= flags.len(),
            forall|j: int| 0 <= j < i ==> (#[trigger] flags[j]).id != id,
        decreases flags.len() - i,
    {
        if flags[i].id.same(id) {
            return Some(i);
        }
        i += 1;
    }
    None
}

/// Whether two flags reserve no bit in common.
pub fn flags_apart<F>(a: &Flag<F>, b: &Flag<F>) -> (ok: bool)
    ensures
        ok == apart(*a, *b),
{
    a.start >= a.end || b.start >= b.end || a.end <= b.start || b.end <= a.start
}

/// Decides `layout_fits`.
pub fn fits<F>(components: usize, flags: &Vec<Flag<F>>, width: u8) -> (ok: bool)
    ensures
        ok == layout_fits(components as nat, flags@, width as nat),
{
    if components > width as usize {
        return false;
    }
    let room: usize = width as usize - components;
    let mut used: usize = 0;
    let mut i: usize = 0;
    while i < flags.len()
        invariant
            i <= flags.len(),
            room == width - components,
            used == total_width(flags@.take(i as int)),
            used <= room,
            forall|k: int|
                0 <= k < i && (#[trigger] flags[k]).start < flags[k].end ==> components
                    + flags[k].end <= width,
            forall|k: int, j: int|
                0 <= k < j < i ==> apart(#[trigger] flags[k], #[trigger] flags[j]),
        decreases flags.len() - i,
    {
        proof {
            assert(flags@.take(i + 1).drop_last() =~= flags@.take(i as int));
            assert(flags@.take(i + 1).last() == flags[i as int]);
            lemma_total_width_prefix(flags@, i + 1);
        }
        if flags[i].start < flags[i].end {
            if flags[i].end as usize > room {
                return false;
            }
            let w: usize = (flags[i].end - flags[i].start) as usize;
            if w > room - used {
                return false;
            }
            used = used + w;
        }
        let mut k: usize = 0;
        while k < i
            invariant
                k <= i < flags.len(),
                forall|j: int| 0 <= j < k ==> apart(#[trigger] flags[j], flags[i as int]),
            decreases i - k,
        {
            if !flags_apart(&flags[k], &flags[i]) {
                return false;
            }
            k += 1;
        }
        i += 1;
    }
    proof {
        assert(flags@.take(i as int) =~= flags@);
    }
    true
}

/// Decides `flag_held` for the mask `mask`.
pub fn holds_flag<B: BitField>(mask: B, range: B, wanted: Option<B>) -> (held: bool)
    ensures
        held == flag_held(mask.ones(), range.ones(), variant_ones(wanted)),
{
    let inside = mask.and(range);
    match wanted {
        None => {
            let zero = B::zero();
            let none = zero.has_bits(inside);
            proof {
                if none {
                    assert forall|i: nat|
                        !(#[trigger] mask.ones().contains(i) && range.ones().contains(i)) by {
                        assert(inside.ones().contains(i) ==> zero.ones().contains(i));
                    }
                } else {
                    let i = choose|i: nat| inside.ones().contains(i);
                    assert(mask.ones().contains(i) && range.ones().contains(i));
                }
            }
            !none
        },
        Some(bits) => inside.has_bits(bits) && bits.has_bits(inside),
    }
}

/// The mask of `flag` in a field whose lowest `components` bits belong to
/// components.
pub fn flag_mask<B: BitField, F>(flag: &Flag<F>, components: u8, variant: Option<B>) -> (mask: B)
    requires
        flag.start < flag.end ==> components + flag.end <= B::width(),
    ensures
        mask.ones() == flag_bits(
            (components + flag.start) as nat,
            (components + flag.end) as nat,
            variant_ones(variant),
        ),
{
    if flag.start >= flag.end {
        let mask = B::zero();
        assert(mask.ones() =~= flag_bits(
            (components + flag.start) as nat,
            (components + flag.end) as nat,
            variant_ones(variant),
        ));
        return mask;
    }
    let range = B::bit_mask(flag.start..flag.end);
    let placed = match variant {
        Some(v) => v.shl(flag.start).and(range),
        None => range,
    };
    let mask = placed.shl(components);
    proof {
        let lo = (components + flag.start) as nat;
        let hi = (components + flag.end) as nat;
        assert forall|i: nat| mask.ones().contains(i) == flag_bits(
            lo,
            hi,
            variant_ones(variant),
        ).contains(i) by {
            if components <= i < B::width() {
                let p = (i - components) as nat;
                assert(mask.ones().contains(i) == placed.ones().contains(p));
                assert(range.ones().contains(p) == (flag.start <= p < flag.end));
            }
        }
        assert(mask.ones() =~= flag_bits(lo, hi, variant_ones(variant)));
    }
    mask
}

} // verus!
