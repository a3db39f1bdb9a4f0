//! What holds of sequences of operations on a store, proved from the model.

use vstd::prelude::*;
use std::any::TypeId;
use std::hash::Hash;
use crate::bits::{span, BitField};
use crate::entities::Entity;
use crate::flags::{flag_slot, flag_width, layout_fits, total_width, Flag};
use crate::model::WorldView;
use crate::worlds::WorldBuilder;

verus! {

/// In a consistent store a registered entity has the bit of a registered
/// component exactly when the column of that component holds a cell for it:
/// the membership test and the lookup of the cell always agree.
pub proof fn lemma_has_component_iff_present<F, P, V>(
    world: WorldView<F, P, V>,
    kind: TypeId,
    entity: Entity,
)
    requires
        world.valid(),
        world.knows(kind),
        world.alive(entity),
    ensures
        world.has_component(kind, entity) <==> world.component(kind, entity).is_some(),
{
    world.lemma_bit_of(kind);
}

/// Attaching a component to an entity that does not have it and detaching it
/// again gives back the store as it was; in particular the membership test
/// answers as it did before.
pub proof fn lemma_attach_then_detach<F, P, V>(
    world: WorldView<F, P, V>,
    kind: TypeId,
    entity: Entity,
    cell: V,
)
    requires
        world.valid(),
        world.knows(kind),
        world.alive(entity),
        !world.has_component(kind, entity),
    ensures
        world.attach(kind, entity, cell).detach(kind, entity) == world,
        world.attach(kind, entity, cell).detach(kind, entity).has_component(kind, entity)
            == world.has_component(kind, entity),
{
    world.lemma_bit_of(kind);
    let bit = world.bit_of(kind);
    let back = world.attach(kind, entity, cell).detach(kind, entity);
    assert(!world.columns[bit].contains_key(entity));
    assert(back.columns[bit] =~= world.columns[bit]);
    assert(back.columns =~= world.columns);
    assert(back.masks[entity] =~= world.masks[entity]);
    assert(back.masks =~= world.masks);
}

/// Whatever an entity had before, after attaching a component and detaching
/// it the entity does not have it.
pub proof fn lemma_detach_clears<F, P, V>(
    world: WorldView<F, P, V>,
    kind: TypeId,
    entity: Entity,
    cell: V,
)
    requires
        world.valid(),
        world.knows(kind),
        world.alive(entity),
    ensures
        !world.attach(kind, entity, cell).detach(kind, entity).has_component(kind, entity),
        world.attach(kind, entity, cell).detach(kind, entity).component(kind, entity).is_none(),
{
    world.lemma_bit_of(kind);
}

/// Setting a variant of a flag and then asking for a variant. Let the entity's
/// mask, before, have no bit in the flag's range but bits of the variant
/// being set (as when the range is clear), and let both variants lie within
/// the width of the flag. Then the flag equals the variant that was set, and
/// no other; and it is present if that variant has a bit.
pub proof fn lemma_flag_set_then_test<F, P, V>(
    world: WorldView<F, P, V>,
    entity: Entity,
    flag: F,
    set: Set<nat>,
    tested: Set<nat>,
)
    requires
        world.valid(),
        world.knows_flag(flag),
        world.alive(entity),
        world.masks[entity].intersect(world.flag_mask(flag, None)).subset_of(
            world.flag_mask(flag, Some(set)),
        ),
        set.subset_of(span(0, flag_width(world.flags[flag_slot(world.flags, flag)]))),
        tested.subset_of(span(0, flag_width(world.flags[flag_slot(world.flags, flag)]))),
    ensures
        world.raise(entity, world.flag_mask(flag, Some(set))).has_flag(entity, flag, Some(set)),
        tested != set ==> !world.raise(entity, world.flag_mask(flag, Some(set))).has_flag(
            entity,
            flag,
            Some(tested),
        ),
        set != Set::<nat>::empty() ==> world.raise(
            entity,
            world.flag_mask(flag, Some(set)),
        ).has_flag(entity, flag, None),
{
    let entry = world.flags[flag_slot(world.flags, flag)];
    let lo = (world.kinds.len() + entry.start) as nat;
    let after = world.raise(entity, world.flag_mask(flag, Some(set)));
    let held = after.masks[entity].intersect(after.flag_mask(flag, None));
    assert(held =~= world.flag_mask(flag, Some(set)));
    if tested != set {
        assert(!(tested =~= set));
        let b = choose|b: nat| tested.contains(b) != set.contains(b);
        assert(b < flag_width(entry));
        let i = (lo + b) as nat;
        assert(world.flag_mask(flag, Some(tested)).contains(i) != world.flag_mask(
            flag,
            Some(set),
        ).contains(i));
    }
    if set != Set::<nat>::empty() {
        assert(!(set =~= Set::<nat>::empty()));
        let b = choose|b: nat| set.contains(b);
        assert(b < flag_width(entry));
        assert(held.contains((lo + b) as nat));
    }
}

/// Setting a variant of a flag for an entity whatever its mask was: the flag
/// then equals a variant exactly when that variant's bits are the bits that
/// the entity had in the flag's range together with those of the variant that
/// was set.
pub proof fn lemma_flag_set_accumulates<F, P, V>(
    world: WorldView<F, P, V>,
    entity: Entity,
    flag: F,
    set: Set<nat>,
    tested: Set<nat>,
)
    requires
        world.valid(),
        world.knows_flag(flag),
        world.alive(entity),
    ensures
        world.raise(entity, world.flag_mask(flag, Some(set))).has_flag(
            entity,
            flag,
            Some(tested),
        ) <==> world.masks[entity].intersect(world.flag_mask(flag, None)).union(
            world.flag_mask(flag, Some(set)),
        ) =~= world.flag_mask(flag, Some(tested)),
{
    let after = world.raise(entity, world.flag_mask(flag, Some(set)));
    let held = after.masks[entity].intersect(after.flag_mask(flag, None));
    assert(held =~= world.masks[entity].intersect(world.flag_mask(flag, None)).union(
        world.flag_mask(flag, Some(set)),
    ));
}

/// A query that requires more returns no entity that a query requiring less
/// does not return: adding a clause to a filter, be it a component or a flag,
/// can only shrink the result.
pub proof fn lemma_query_monotone<F, P, V>(
    world: WorldView<F, P, V>,
    required: Set<nat>,
    more: Set<nat>,
    bit: nat,
)
    ensures
        world.matching(required.union(more)).subset_of(world.matching(required)),
        world.matching(required.insert(bit)).subset_of(world.matching(required)),
{
}

/// A deleted entity is in no column and not in the membership table, and no
/// query returns it, whatever it requires.
pub proof fn lemma_delete_complete<F, P, V>(
    world: WorldView<F, P, V>,
    entity: Entity,
    filter: Set<nat>,
)
    ensures
        !world.delete(entity).alive(entity),
        forall|i: int|
            0 <= i < world.delete(entity).columns.len() ==> !(
            #[trigger] world.delete(entity).columns[i]).contains_key(entity),
        !world.delete(entity).matching(filter).contains(entity),
{
}

/// A schema whose component count and flag widths add up to more than the
/// mask has bits does not fit, so no store is built from it.
pub proof fn lemma_overflow_does_not_fit<F>(components: nat, flags: Seq<Flag<F>>, width: nat)
    requires
        components + total_width(flags) > width,
    ensures
        !layout_fits(components, flags, width),
{
}

/// A builder whose schema overflows the mask is not buildable.
pub proof fn lemma_overflow_not_buildable<B: BitField, F: BitField, P: Hash + Eq, V>(
    builder: WorldBuilder<B, F, P, V>,
)
    requires
        builder.kinds().len() + total_width(builder.flags()) > B::width(),
    ensures
        !builder.buildable(),
{
}

} // verus!
