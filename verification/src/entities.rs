//! Entities and the builder that makes them.

use vstd::prelude::*;
use std::any::TypeId;
use std::hash::Hash;
use crate::bits::BitField;
use crate::flags::variant_ones;
use crate::worlds::World;

verus! {

/// An identifier for a logical object. It carries no data: what an entity
/// has is recorded by the store that minted it.
#[derive(Clone, Copy, Hash, PartialEq, Eq, Default, Debug)]
pub struct Entity(pub usize);

/// An entity under construction. The cells it is given go into the columns
/// at once; the entity itself is registered, with the mask collected here,
/// when `build` is called.
///
/// The fields are public for the contracts' sake: they say what the borrowed
/// store is now and what it will be when the borrow ends.
#[verifier::reject_recursive_types(P)]
pub struct EntityBuilder<'world, B, F, P, V> {
    /// The entity being built.
    pub entity: Entity,
    /// The mask collected so far.
    pub bit_mask: B,
    /// The store that the entity will be registered in.
    pub world: &'world mut World<B, F, P, V>,
}

impl<'world, B: BitField, F: BitField, P: Hash + Eq, V> EntityBuilder<'world, B, F, P, V> {
    /// What the builder keeps true: its entity has an id that the store
    /// handed out but is not registered, and its mask has bit `i` exactly
    /// where column `i` holds a cell for it.
    pub open spec fn wf(&self) -> bool {
        &&& self.world.wf()
        &&& !self.world@.alive(self.entity)
        &&& self.entity.0 < self.world@.next_id
        &&& forall|i: int|
            0 <= i < self.world@.columns.len() ==> (#[trigger] self.world@.columns[i].contains_key(
                self.entity,
            ) <==> self.bit_mask.ones().contains(i as nat))
    }

    /// A builder for the entity with id `id`, with nothing attached.
    pub(crate) fn new(id: usize, world: &'world mut World<B, F, P, V>) -> (builder: Self)
        ensures
            builder.entity == Entity(id),
            builder.bit_mask.ones() == Set::<nat>::empty(),
            *builder.world == *old(world),
            *final(builder.world) == *final(world),
    {
        EntityBuilder { entity: Entity(id), bit_mask: B::zero(), world }
    }

    /// Gives the entity `component` as its component of `kind`.
    pub fn with_component(self, kind: TypeId, component: V) -> (next: Self)
        requires
            self.wf(),
            old(self.world)@.knows(kind),
        ensures
            next.wf(),
            next.entity == self.entity,
            next.bit_mask.ones() == self.bit_mask.ones().insert(
                old(self.world)@.bit_of(kind) as nat,
            ),
            next.world@ == old(self.world)@.stage(kind, self.entity, component),
            *final(next.world) == *final(self.world),
    {
        let mut next = self;
        let mut bit_mask = next.bit_mask;
        next.world.add_component_to_entity_builder(kind, component, next.entity, &mut bit_mask);
        next.bit_mask = bit_mask;
        next
    }

    /// Gives the entity a clone of `component` as its component of `kind`.
    pub fn with_shared_component(self, kind: TypeId, component: &V) -> (next: Self) where
        V: Clone,

        requires
            self.wf(),
            old(self.world)@.knows(kind),
        ensures
            next.wf(),
            next.entity == self.entity,
            next.bit_mask.ones() == self.bit_mask.ones().insert(
                old(self.world)@.bit_of(kind) as nat,
            ),
            next.world@.component(kind, self.entity) matches Some(cell) && cloned(*component, cell)
                && next.world@ == old(self.world)@.stage(kind, self.entity, cell),
            *final(next.world) == *final(self.world),
    {
        let mut next = self;
        let mut bit_mask = next.bit_mask;
        next.world.add_shared_component_to_entity_builder(
            kind,
            component,
            next.entity,
            &mut bit_mask,
        );
        next.bit_mask = bit_mask;
        next
    }

    /// Sets the bits of the flag mask in the mask of the entity.
    pub fn with_flag(self, flag: F, variant: Option<B>) -> (next: Self)
        requires
            self.wf(),
            old(self.world)@.knows_flag(flag),
        ensures
            next.wf(),
            next.entity == self.entity,
            next.bit_mask.ones() == self.bit_mask.ones().union(
                old(self.world)@.flag_mask(flag, variant_ones(variant)),
            ),
            *next.world == *old(self.world),
            *final(next.world) == *final(self.world),
    {
        let mut next = self;
        let mut bit_mask = next.bit_mask;
        next.world.add_flag_to_entity_builder(flag, variant, &mut bit_mask);
        next.bit_mask = bit_mask;
        proof {
            next.world@.lemma_flag_mask(flag, variant_ones(variant));
        }
        next
    }

    /// Registers the entity with the collected mask and returns it.
    pub fn build(self) -> (entity: Entity)
        requires
            self.wf(),
        ensures
            entity == self.entity,
            final(self.world).wf(),
            final(self.world)@ == old(self.world)@.enroll(self.entity, self.bit_mask.ones()),
    {
        proof {
            self.bit_mask.lemma_ones_in_width();
            self.world@.lemma_enroll_valid(self.entity, self.bit_mask.ones());
        }
        self.world.add_entity(self.entity, self.bit_mask);
        self.entity
    }
}

} // verus!
