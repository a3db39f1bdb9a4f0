//! The store and its build phase.

use vstd::prelude::*;
use std::any::TypeId;
use std::collections::HashMap;
use std::hash::Hash;
use std::marker::PhantomData;
use std::ops::Range;
use vstd::std_specs::hash::obeys_key_model;
use vstd::std_specs::iter::IteratorSpec;
use crate::bits::{span, BitField};
use crate::components::{find_component, lemma_index_of_unique};
use crate::entities::{Entity, EntityBuilder};
use crate::flags::{
    distinct_flags, find_flag, fits, flag_mask, holds_flag, knows_flag, layout_fits,
    lemma_flag_slot_unique, variant_ones, Flag,
};
use crate::queries::QueryBuilder;
use crate::model::{
    by_entity, lemma_by_entity_insert, lemma_by_entity_remove, lemma_take_none,
    lemma_take_one_more, WorldView,
};

verus! {

broadcast use vstd::std_specs::hash::group_hash_axioms;

/// The store: a closed schema of components and flags, one column of cells
/// per component, and one membership mask per entity.
#[verifier::reject_recursive_types(P)]
pub struct World<B, F, P, V> {
    components: Vec<TypeId>,
    flags: Vec<Flag<F>>,
    component_columns: Vec<HashMap<usize, V>>,
    component_pointers: HashMap<P, V>,
    entities: HashMap<usize, B>,
    next_entity_id: usize,
}

/// The build phase of a store: collects the schema, then hands out the
/// store.
#[verifier::reject_recursive_types(P)]
pub struct WorldBuilder<B, F, P, V> {
    components: Vec<TypeId>,
    flags: Vec<Flag<F>>,
    component_columns: Vec<HashMap<usize, V>>,
    component_pointers: HashMap<P, V>,
    mask_type: PhantomData<B>,
}

/// The masks of a table keyed by entity ids, as sets of bit positions keyed
/// by entities.
pub open spec fn mask_view<B: BitField>(masks: Map<usize, B>) -> Map<Entity, Set<nat>> {
    Map::new(|e: Entity| masks.contains_key(e.0), |e: Entity| masks[e.0].ones())
}

impl<B: BitField, F, P, V> View for World<B, F, P, V> {
    type V = WorldView<F, P, V>;

    closed spec fn view(&self) -> WorldView<F, P, V> {
        WorldView {
            width: B::width(),
            kinds: self.components@,
            flags: self.flags@,
            columns: Seq::new(
                self.component_columns@.len(),
                |i: int| by_entity(self.component_columns@[i]@),
            ),
            pointers: self.component_pointers@,
            masks: mask_view(self.entities@),
            next_id: self.next_entity_id as nat,
        }
    }
}

impl<B: BitField, F: BitField, P: Hash + Eq, V> WorldBuilder<B, F, P, V> {
    /// The component kinds registered so far, in registration order.
    pub closed spec fn kinds(&self) -> Seq<TypeId> {
        self.components@
    }

    /// The flags registered so far, in registration order.
    pub closed spec fn flags(&self) -> Seq<Flag<F>> {
        self.flags@
    }

    /// The component pointers registered so far.
    pub closed spec fn pointers(&self) -> Map<P, V> {
        self.component_pointers@
    }

    /// What the builder keeps true of itself.
    pub closed spec fn wf(&self) -> bool {
        &&& self.components@.no_duplicates()
        &&& distinct_flags(self.flags@)
        &&& self.component_columns@.len() == self.components@.len()
        &&& forall|i: int|
            0 <= i < self.component_columns@.len() ==> (
            #[trigger] self.component_columns@[i])@ == Map::<usize, V>::empty()
    }

    /// Whether the schema registered so far fits the mask type.
    pub open spec fn buildable(&self) -> bool {
        layout_fits(self.kinds().len(), self.flags(), B::width())
    }

    /// Whether `kind` has been registered.
    pub fn has_component(&self, kind: TypeId) -> (known: bool)
        ensures
            known == self.kinds().contains(kind),
    {
        find_component(&self.components, &kind).is_some()
    }

    /// Whether a flag named `flag` has been registered.
    pub fn has_flag(&self, flag: F) -> (known: bool)
        ensures
            known == knows_flag(self.flags(), flag),
    {
        find_flag(&self.flags, flag).is_some()
    }

    /// Whether a component pointer with this id has been registered.
    pub fn has_component_pointer(&self, id: &P) -> (known: bool)
        requires
            obeys_key_model::<P>(),
        ensures
            known == self.pointers().contains_key(*id),
    {
        self.component_pointers.contains_key(id)
    }

    /// Registers the cell `component` under `id`. An id that is taken keeps
    /// its first cell.
    pub fn with_component_pointer(self, id: P, component: V) -> (next: Self)
        requires
            self.wf(),
            obeys_key_model::<P>(),
        ensures
            next.wf(),
            next.kinds() == self.kinds(),
            next.flags() == self.flags(),
            next.pointers() == if self.pointers().contains_key(id) {
                self.pointers()
            } else {
                self.pointers().insert(id, component)
            },
    {
        let mut next = self;
        if !next.component_pointers.contains_key(&id) {
            next.component_pointers.insert(id, component);
        }
        next
    }

    /// Registers a clone of the cell `component` under `id`. An id that is
    /// taken keeps its first cell.
    pub fn with_shared_component_pointer(self, id: P, component: &V) -> (next: Self) where
        V: Clone,

        requires
            self.wf(),
            obeys_key_model::<P>(),
        ensures
            next.wf(),
            next.kinds() == self.kinds(),
            next.flags() == self.flags(),
            self.pointers().contains_key(id) ==> next.pointers() == self.pointers(),
            !self.pointers().contains_key(id) ==> next.pointers().contains_key(id) && cloned(
                *component,
                next.pointers()[id],
            ) && next.pointers() == self.pointers().insert(id, next.pointers()[id]),
    {
        let mut next = self;
        if !next.component_pointers.contains_key(&id) {
            next.component_pointers.insert(id, component.clone());
        }
        next
    }

    /// Registers the component `kind`: it gets the next free bit and an empty
    /// column. A kind that is registered already stays where it is.
    pub fn with_component(self, kind: TypeId) -> (next: Self)
        requires
            self.wf(),
        ensures
            next.wf(),
            next.kinds() == if self.kinds().contains(kind) {
                self.kinds()
            } else {
                self.kinds().push(kind)
            },
            next.flags() == self.flags(),
            next.pointers() == self.pointers(),
    {
        let mut next = self;
        if find_component(&next.components, &kind).is_none() {
            next.components.push(kind);
            next.component_columns.push(HashMap::new());
        }
        next
    }

    /// Reserves the bits of `range`, counted from the first bit above the
    /// components, for the flag `flag`. A flag that is registered already
    /// keeps its first range.
    pub fn with_flag(self, flag: F, range: Range<u8>) -> (next: Self)
        requires
            self.wf(),
        ensures
            next.wf(),
            next.kinds() == self.kinds(),
            next.flags() == if knows_flag(self.flags(), flag) {
                self.flags()
            } else {
                self.flags().push(Flag { id: flag, start: range.start, end: range.end })
            },
            next.pointers() == self.pointers(),
    {
        let mut next = self;
        if find_flag(&next.flags, flag).is_none() {
            next.flags.push(Flag { id: flag, start: range.start, end: range.end });
        }
        next
    }

    /// Decides whether `build` may be called.
    pub fn fits(&self) -> (ok: bool)
        ensures
            ok == self.buildable(),
    {
        fits(self.components.len(), &self.flags, B::bits())
    }

    /// Ends the build phase: the store with the registered schema, no entity
    /// and empty columns.
    pub fn build(self) -> (world: World<B, F, P, V>)
        requires
            self.wf(),
            self.buildable(),
        ensures
            world.wf(),
            world@ == (WorldView {
                width: B::width(),
                kinds: self.kinds(),
                flags: self.flags(),
                columns: Seq::new(self.kinds().len(), |i: int| Map::<Entity, V>::empty()),
                pointers: self.pointers(),
                masks: Map::<Entity, Set<nat>>::empty(),
                next_id: 0,
            }),
    {
        let world = World {
            components: self.components,
            flags: self.flags,
            component_columns: self.component_columns,
            component_pointers: self.component_pointers,
            entities: HashMap::new(),
            next_entity_id: 0,
        };
        proof {
            let after = world@;
            assert(after.masks =~= Map::<Entity, Set<nat>>::empty());
            assert forall|i: int| 0 <= i < after.columns.len() implies #[trigger] after.columns[i]
                == Map::<Entity, V>::empty() by {
                assert(world.component_columns@[i]@ == Map::<usize, V>::empty());
                assert(after.columns[i] =~= Map::<Entity, V>::empty());
            }
            assert(after.columns =~= Seq::new(
                self.kinds().len(),
                |i: int| Map::<Entity, V>::empty(),
            ));
        }
        world
    }
}

impl<B: BitField, F: BitField, P: Hash + Eq, V> World<B, F, P, V> {
    /// What every operation expects of the store, and leaves true: the state
    /// is consistent, and the masks are as wide as the mask type.
    pub open spec fn wf(&self) -> bool {
        &&& self@.valid()
        &&& self@.width == B::width()
    }

    /// Starts the build phase with an empty schema.
    pub fn builder() -> (builder: WorldBuilder<B, F, P, V>)
        ensures
            builder.wf(),
            builder.kinds() == Seq::<TypeId>::empty(),
            builder.flags() == Seq::<Flag<F>>::empty(),
            builder.pointers() == Map::<P, V>::empty(),
    {
        WorldBuilder {
            components: Vec::new(),
            flags: Vec::new(),
            component_columns: Vec::new(),
            component_pointers: HashMap::new(),
            mask_type: PhantomData,
        }
    }

    /// Whether `kind` is a registered component.
    pub fn knows_component(&self, kind: TypeId) -> (known: bool)
        ensures
            known == self@.knows(kind),
    {
        find_component(&self.components, &kind).is_some()
    }

    /// Whether `flag` is a registered flag.
    pub fn knows_flag(&self, flag: F) -> (known: bool)
        ensures
            known == self@.knows_flag(flag),
    {
        find_flag(&self.flags, flag).is_some()
    }

    /// Whether `entity` is registered.
    pub fn contains_entity(&self, entity: Entity) -> (alive: bool)
        ensures
            alive == self@.alive(entity),
    {
        self.entities.contains_key(&entity.0)
    }

    /// Whether the counter can hand out one more entity id.
    pub fn has_free_id(&self) -> (free: bool)
        ensures
            free == (self@.next_id < usize::MAX),
    {
        self.next_entity_id < usize::MAX
    }

    /// Whether a component pointer is registered under `id`.
    pub fn contains_pointer(&self, id: &P) -> (known: bool)
        requires
            obeys_key_model::<P>(),
        ensures
            known == self@.pointers.contains_key(*id),
    {
        self.component_pointers.contains_key(id)
    }

    /// The column, and the bit, of a registered component.
    fn slot_of(&self, kind: TypeId) -> (slot: usize)
        requires
            self.wf(),
            self@.knows(kind),
        ensures
            slot == self@.bit_of(kind),
            slot < self@.kinds.len(),
            slot < self.component_columns.len(),
            slot < B::width(),
            slot <= u8::MAX,
    {
        let found = find_component(&self.components, &kind);
        let slot = found.unwrap();
        proof {
            lemma_index_of_unique(self.components@, slot as int);
            self@.lemma_bit_of(kind);
            B::lemma_width();
        }
        slot
    }

    /// The mask of a registered entity.
    fn mask_of(&self, entity: Entity) -> (mask: B)
        requires
            self@.alive(entity),
        ensures
            mask.ones() == self@.masks[entity],
    {
        let mask = self.entities.get(&entity.0);
        *mask.unwrap()
    }

    /// Stores `cell` for `entity` in column `slot`.
    fn put_cell(&mut self, slot: usize, entity: Entity, cell: V)
        requires
            slot < old(self)@.columns.len(),
        ensures
            final(self)@ == (WorldView {
                columns: old(self)@.columns.update(
                    slot as int,
                    old(self)@.columns[slot as int].insert(entity, cell),
                ),
                ..old(self)@
            }),
    {
        self.component_columns[slot].insert(entity.0, cell);
        proof {
            lemma_by_entity_insert(old(self).component_columns@[slot as int]@, entity.0, cell);
            assert(self@.columns =~= old(self)@.columns.update(
                slot as int,
                old(self)@.columns[slot as int].insert(entity, cell),
            ));
        }
    }

    /// Removes the cell of `entity`, if any, from column `slot`.
    fn take_cell(&mut self, slot: usize, entity: Entity)
        requires
            slot < old(self)@.columns.len(),
        ensures
            final(self)@ == (WorldView {
                columns: old(self)@.columns.update(
                    slot as int,
                    old(self)@.columns[slot as int].remove(entity),
                ),
                ..old(self)@
            }),
    {
        self.component_columns[slot].remove(&entity.0);
        proof {
            lemma_by_entity_remove(old(self).component_columns@[slot as int]@, entity.0);
            assert(self@.columns =~= old(self)@.columns.update(
                slot as int,
                old(self)@.columns[slot as int].remove(entity),
            ));
        }
    }

    /// Registers `entity` with the mask `entity_bit_mask`, or replaces its
    /// mask.
    pub(crate) fn add_entity(&mut self, entity: Entity, entity_bit_mask: B)
        ensures
            final(self)@ == old(self)@.enroll(entity, entity_bit_mask.ones()),
    {
        self.entities.insert(entity.0, entity_bit_mask);
        proof {
            assert(self@.masks =~= old(self)@.masks.insert(entity, entity_bit_mask.ones()));
        }
    }

    /// The mask with only the bit of the component `kind` set.
    pub fn component_bit_mask(&self, kind: TypeId) -> (mask: B)
        requires
            self.wf(),
            self@.knows(kind),
        ensures
            mask.ones() == set![self@.bit_of(kind) as nat],
    {
        let slot = self.slot_of(kind);
        B::bit(slot as u8)
    }

    /// The mask of the flag `flag`: its whole range when `variant` is `None`,
    /// else the bits of the variant placed in the range.
    pub fn flag_bit_mask(&self, flag: F, variant: Option<B>) -> (mask: B)
        requires
            self.wf(),
            self@.knows_flag(flag),
        ensures
            mask.ones() == self@.flag_mask(flag, variant_ones(variant)),
    {
        let found = find_flag(&self.flags, flag);
        let slot = found.unwrap();
        proof {
            lemma_flag_slot_unique(self.flags@, slot as int);
            B::lemma_width();
        }
        flag_mask(&self.flags[slot], self.components.len() as u8, variant)
    }

    /// Whether `entity` has a component of `kind`.
    pub fn entity_has_component(&self, kind: TypeId, entity: Entity) -> (has: bool)
        requires
            self.wf(),
            self@.knows(kind),
            self@.alive(entity),
        ensures
            has == self@.has_component(kind, entity),
    {
        let bit_mask = self.component_bit_mask(kind);
        self.mask_of(entity).has_bits(bit_mask)
    }

    /// Without a variant, whether the flag is present in the mask of `entity`:
    /// whether any bit of its range is set. With a variant, whether the flag
    /// of `entity` equals it: whether the bits set in the range are exactly
    /// those of the variant.
    pub fn entity_has_flag(&self, entity: Entity, flag: F, variant: Option<B>) -> (has: bool)
        requires
            self.wf(),
            self@.knows_flag(flag),
            self@.alive(entity),
        ensures
            has == self@.has_flag(entity, flag, variant_ones(variant)),
    {
        let range = self.flag_bit_mask(flag, None);
        let wanted = match variant {
            Some(_) => Some(self.flag_bit_mask(flag, variant)),
            None => None,
        };
        holds_flag(self.mask_of(entity), range, wanted)
    }

    /// Attaches `component` to `entity` as its component of `kind`, in place
    /// of the one it may have.
    pub fn add_component_to_entity(&mut self, kind: TypeId, component: V, entity: Entity)
        requires
            old(self).wf(),
            old(self)@.knows(kind),
            old(self)@.alive(entity),
        ensures
            final(self).wf(),
            final(self)@ == old(self)@.attach(kind, entity, component),
    {
        let slot = self.slot_of(kind);
        let bit_mask = B::bit(slot as u8);
        let mask = self.mask_of(entity).or(bit_mask);
        self.add_entity(entity, mask);
        self.put_cell(slot, entity, component);
        proof {
            assert(self@ =~= old(self)@.attach(kind, entity, component));
            old(self)@.lemma_attach_valid(kind, entity, component);
        }
    }

    /// Attaches a clone of `component` to `entity` as its component of `kind`,
    /// in place of the one it may have.
    pub fn add_shared_component_to_entity(
        &mut self,
        kind: TypeId,
        component: &V,
        entity: Entity,
    ) where V: Clone

        requires
            old(self).wf(),
            old(self)@.knows(kind),
            old(self)@.alive(entity),
        ensures
            final(self).wf(),
            final(self)@.component(kind, entity) matches Some(cell) && cloned(*component, cell)
                && final(self)@ == old(self)@.attach(kind, entity, cell),
    {
        let cell = component.clone();
        proof {
            old(self)@.lemma_bit_of(kind);
        }
        self.add_component_to_entity(kind, cell, entity);
    }

    /// The cell that `entity` has for the component `kind`, if it has one.
    pub fn get_entity_component(&self, kind: TypeId, entity: Entity) -> (found: Option<&V>)
        requires
            self.wf(),
            self@.knows(kind),
        ensures
            match found {
                Some(cell) => self@.component(kind, entity) == Some(*cell),
                None => self@.component(kind, entity).is_none(),
            },
    {
        let slot = self.slot_of(kind);
        self.component_columns[slot].get(&entity.0)
    }

    /// Takes the component of `kind` from `entity`. An entity without one
    /// stays as it is.
    pub fn delete_entity_component(&mut self, kind: TypeId, entity: Entity)
        requires
            old(self).wf(),
            old(self)@.knows(kind),
            old(self)@.alive(entity),
        ensures
            final(self).wf(),
            final(self)@ == old(self)@.detach(kind, entity),
    {
        let slot = self.slot_of(kind);
        let bit_mask = B::bit(slot as u8);
        let mask = self.mask_of(entity).and(bit_mask.not());
        self.add_entity(entity, mask);
        self.take_cell(slot, entity);
        proof {
            assert(mask.ones() =~= old(self)@.masks[entity].difference(set![slot as nat]));
            assert(self@ =~= old(self)@.detach(kind, entity));
            old(self)@.lemma_detach_valid(kind, entity);
        }
    }

    /// Sets the bits of the flag mask in the mask of `entity`.
    pub fn set_entity_flag(&mut self, entity: Entity, flag: F, variant: Option<B>)
        requires
            old(self).wf(),
            old(self)@.knows_flag(flag),
            old(self)@.alive(entity),
        ensures
            final(self).wf(),
            final(self)@ == old(self)@.raise(
                entity,
                old(self)@.flag_mask(flag, variant_ones(variant)),
            ),
    {
        let bit_mask = self.flag_bit_mask(flag, variant);
        let mask = self.mask_of(entity).or(bit_mask);
        self.add_entity(entity, mask);
        proof {
            old(self)@.lemma_flag_mask(flag, variant_ones(variant));
            old(self)@.lemma_raise_valid(entity, bit_mask.ones());
        }
    }

    /// Clears the bits of the flag mask in the mask of `entity`.
    pub fn remove_entity_flag(&mut self, entity: Entity, flag: F, variant: Option<B>)
        requires
            old(self).wf(),
            old(self)@.knows_flag(flag),
            old(self)@.alive(entity),
        ensures
            final(self).wf(),
            final(self)@ == old(self)@.lower(
                entity,
                old(self)@.flag_mask(flag, variant_ones(variant)),
            ),
    {
        let bit_mask = self.flag_bit_mask(flag, variant);
        let mask = self.mask_of(entity).and(bit_mask.not());
        self.add_entity(entity, mask);
        proof {
            assert(mask.ones() =~= old(self)@.masks[entity].difference(bit_mask.ones()));
            old(self)@.lemma_flag_mask(flag, variant_ones(variant));
            old(self)@.lemma_lower_valid(entity, bit_mask.ones());
        }
    }

    /// The cell registered under the pointer id `id`.
    pub fn get_pointer_component(&self, id: &P) -> (cell: &V)
        requires
            obeys_key_model::<P>(),
            self@.pointers.contains_key(*id),
        ensures
            *cell == self@.pointers[*id],
    {
        let found = self.component_pointers.get(id);
        found.unwrap()
    }

    /// For each entity of the group, whether it has a component of `kind`.
    pub fn entity_group_has_component(&self, kind: TypeId, entity_group: &[Entity]) -> (has: Vec<
        bool,
    >)
        requires
            self.wf(),
            self@.knows(kind),
            forall|k: int|
                0 <= k < entity_group@.len() ==> self@.alive(#[trigger] entity_group@[k]),
        ensures
            has@.len() == entity_group@.len(),
            forall|k: int|
                0 <= k < entity_group@.len() ==> #[trigger] has@[k] == self@.has_component(
                    kind,
                    entity_group@[k],
                ),
    {
        let bit_mask = self.component_bit_mask(kind);
        let mut has: Vec<bool> = Vec::new();
        let mut k: usize = 0;
        while k < entity_group.len()
            invariant
                k <= entity_group@.len(),
                has@.len() == k,
                bit_mask.ones() == set![self@.bit_of(kind) as nat],
                forall|j: int|
                    0 <= j < entity_group@.len() ==> self@.alive(#[trigger] entity_group@[j]),
                forall|j: int|
                    0 <= j < k ==> #[trigger] has@[j] == self@.has_component(
                        kind,
                        entity_group@[j],
                    ),
            decreases entity_group@.len() - k,
        {
            has.push(self.mask_of(entity_group[k]).has_bits(bit_mask));
            k += 1;
        }
        has
    }

    /// For each entity of the group, what `entity_has_flag` answers for it.
    pub fn entity_group_has_flag(
        &self,
        entity_group: &[Entity],
        flag: F,
        variant: Option<B>,
    ) -> (has: Vec<bool>)
        requires
            self.wf(),
            self@.knows_flag(flag),
            forall|k: int|
                0 <= k < entity_group@.len() ==> self@.alive(#[trigger] entity_group@[k]),
        ensures
            has@.len() == entity_group@.len(),
            forall|k: int|
                0 <= k < entity_group@.len() ==> #[trigger] has@[k] == self@.has_flag(
                    entity_group@[k],
                    flag,
                    variant_ones(variant),
                ),
    {
        let range = self.flag_bit_mask(flag, None);
        let wanted = match variant {
            Some(_) => Some(self.flag_bit_mask(flag, variant)),
            None => None,
        };
        let mut has: Vec<bool> = Vec::new();
        let mut k: usize = 0;
        while k < entity_group.len()
            invariant
                k <= entity_group@.len(),
                has@.len() == k,
                range.ones() == self@.flag_mask(flag, None),
                variant_ones(wanted) == match variant {
                    None => None::<Set<nat>>,
                    Some(_) => Some(self@.flag_mask(flag, variant_ones(variant))),
                },
                forall|j: int|
                    0 <= j < entity_group@.len() ==> self@.alive(#[trigger] entity_group@[j]),
                forall|j: int|
                    0 <= j < k ==> #[trigger] has@[j] == self@.has_flag(
                        entity_group@[j],
                        flag,
                        variant_ones(variant),
                    ),
            decreases entity_group@.len() - k,
        {
            has.push(holds_flag(self.mask_of(entity_group[k]), range, wanted));
            k += 1;
        }
        has
    }

    /// Attaches a clone of `component` to every entity of the group as its
    /// component of `kind`.
    pub fn add_component_to_entity_group(
        &mut self,
        kind: TypeId,
        component: V,
        entity_group: &[Entity],
    ) where V: Clone
        requires
            old(self).wf(),
            old(self)@.knows(kind),
            forall|k: int|
                0 <= k < entity_group@.len() ==> old(self)@.alive(#[trigger] entity_group@[k]),
        ensures
            final(self).wf(),
            final(self)@ == old(self)@.attach_all(
                kind,
                final(self)@.column_of(kind).restrict(entity_group@.to_set()),
            ),
            forall|k: int|
                0 <= k < entity_group@.len() ==> final(self)@.column_of(kind).contains_key(
                    #[trigger] entity_group@[k],
                ) && cloned(component, final(self)@.column_of(kind)[entity_group@[k]]),
    {
        self.add_shared_component_to_entity_group(kind, &component, entity_group);
    }

    /// Attaches a clone of `component` to every entity of the group as its
    /// component of `kind`.
    pub fn add_shared_component_to_entity_group(
        &mut self,
        kind: TypeId,
        component: &V,
        entity_group: &[Entity],
    ) where V: Clone
        requires
            old(self).wf(),
            old(self)@.knows(kind),
            forall|k: int|
                0 <= k < entity_group@.len() ==> old(self)@.alive(#[trigger] entity_group@[k]),
        ensures
            final(self).wf(),
            final(self)@ == old(self)@.attach_all(
                kind,
                final(self)@.column_of(kind).restrict(entity_group@.to_set()),
            ),
            forall|k: int|
                0 <= k < entity_group@.len() ==> final(self)@.column_of(kind).contains_key(
                    #[trigger] entity_group@[k],
                ) && cloned(*component, final(self)@.column_of(kind)[entity_group@[k]]),
    {
        proof {
            old(self)@.lemma_attach_none(kind);
            lemma_take_none(entity_group@);
            old(self)@.lemma_bit_of(kind);
            assert(old(self)@.column_of(kind).restrict(Set::<Entity>::empty()) =~= Map::<
                Entity,
                V,
            >::empty());
        }
        let mut k: usize = 0;
        while k < entity_group.len()
            invariant
                k <= entity_group@.len(),
                old(self).wf(),
                old(self)@.knows(kind),
                forall|j: int|
                    0 <= j < entity_group@.len() ==> old(self)@.alive(#[trigger] entity_group@[j]),
                self.wf(),
                self@ == old(self)@.attach_all(
                    kind,
                    self@.column_of(kind).restrict(entity_group@.take(k as int).to_set()),
                ),
                forall|j: int|
                    0 <= j < k ==> self@.column_of(kind).contains_key(
                        #[trigger] entity_group@[j],
                    ) && cloned(*component, self@.column_of(kind)[entity_group@[j]]),
            decreases entity_group@.len() - k,
        {
            let ghost before = self@;
            let ghost cells = before.column_of(kind).restrict(
                entity_group@.take(k as int).to_set(),
            );
            let entity = entity_group[k];
            let cell = component.clone();
            self.add_component_to_entity(kind, cell, entity);
            proof {
                old(self)@.lemma_bit_of(kind);
                lemma_take_one_more(entity_group@, k as int);
                old(self)@.lemma_attach_one_more(kind, cells, entity, cell);
                assert(self@.column_of(kind).restrict(entity_group@.take(k + 1).to_set())
                    =~= cells.insert(entity, cell));
            }
            k += 1;
        }
        proof {
            assert(entity_group@.take(k as int) =~= entity_group@);
        }
    }

    /// For each entity of the group, the cell it has for the component
    /// `kind`, if it has one.
    pub fn get_entity_group_component(&self, kind: TypeId, entity_group: &[Entity]) -> (found: Vec<
        Option<&V>,
    >)
        requires
            self.wf(),
            self@.knows(kind),
        ensures
            found@.len() == entity_group@.len(),
            forall|k: int|
                0 <= k < entity_group@.len() ==> match #[trigger] found@[k] {
                    Some(cell) => self@.component(kind, entity_group@[k]) == Some(*cell),
                    None => self@.component(kind, entity_group@[k]).is_none(),
                },
    {
        let component_column = self.get_component_column(kind);
        let mut found: Vec<Option<&V>> = Vec::new();
        let mut k: usize = 0;
        while k < entity_group.len()
            invariant
                k <= entity_group@.len(),
                found@.len() == k,
                by_entity(component_column@) == self@.column_of(kind),
                forall|j: int|
                    0 <= j < k ==> match #[trigger] found@[j] {
                        Some(cell) => self@.component(kind, entity_group@[j]) == Some(*cell),
                        None => self@.component(kind, entity_group@[j]).is_none(),
                    },
            decreases entity_group@.len() - k,
        {
            found.push(component_column.get(&entity_group[k].0));
            k += 1;
        }
        found
    }

    /// Takes the component of `kind` from every entity of the group.
    pub fn delete_entity_group_component(&mut self, kind: TypeId, entity_group: &[Entity])
        requires
            old(self).wf(),
            old(self)@.knows(kind),
            forall|k: int|
                0 <= k < entity_group@.len() ==> old(self)@.alive(#[trigger] entity_group@[k]),
        ensures
            final(self).wf(),
            final(self)@ == old(self)@.detach_all(kind, entity_group@.to_set()),
    {
        proof {
            old(self)@.lemma_detach_none(kind);
            lemma_take_none(entity_group@);
        }
        let mut k: usize = 0;
        while k < entity_group.len()
            invariant
                k <= entity_group@.len(),
                old(self).wf(),
                old(self)@.knows(kind),
                forall|j: int|
                    0 <= j < entity_group@.len() ==> old(self)@.alive(#[trigger] entity_group@[j]),
                self.wf(),
                self@ == old(self)@.detach_all(kind, entity_group@.take(k as int).to_set()),
            decreases entity_group@.len() - k,
        {
            let entity = entity_group[k];
            self.delete_entity_component(kind, entity);
            proof {
                lemma_take_one_more(entity_group@, k as int);
                old(self)@.lemma_detach_one_more(
                    kind,
                    entity_group@.take(k as int).to_set(),
                    entity,
                );
            }
            k += 1;
        }
        proof {
            assert(entity_group@.take(k as int) =~= entity_group@);
        }
    }

    /// Sets the bits of the flag mask in the mask of every entity of the
    /// group.
    pub fn set_entity_group_flag(&mut self, entity_group: &[Entity], flag: F, variant: Option<B>)
        requires
            old(self).wf(),
            old(self)@.knows_flag(flag),
            forall|k: int|
                0 <= k < entity_group@.len() ==> old(self)@.alive(#[trigger] entity_group@[k]),
        ensures
            final(self).wf(),
            final(self)@ == old(self)@.raise_all(
                entity_group@.to_set(),
                old(self)@.flag_mask(flag, variant_ones(variant)),
            ),
    {
        let bit_mask = self.flag_bit_mask(flag, variant);
        proof {
            old(self)@.lemma_raise_none(bit_mask.ones());
            lemma_take_none(entity_group@);
            old(self)@.lemma_flag_mask(flag, variant_ones(variant));
        }
        let mut k: usize = 0;
        while k < entity_group.len()
            invariant
                k <= entity_group@.len(),
                old(self).wf(),
                bit_mask.ones().subset_of(span(old(self)@.kinds.len(), old(self)@.width)),
                forall|j: int|
                    0 <= j < entity_group@.len() ==> old(self)@.alive(#[trigger] entity_group@[j]),
                self.wf(),
                self@ == old(self)@.raise_all(
                    entity_group@.take(k as int).to_set(),
                    bit_mask.ones(),
                ),
            decreases entity_group@.len() - k,
        {
            let ghost before = self@;
            let entity = entity_group[k];
            let mask = self.mask_of(entity).or(bit_mask);
            self.add_entity(entity, mask);
            proof {
                before.lemma_raise_valid(entity, bit_mask.ones());
                lemma_take_one_more(entity_group@, k as int);
                old(self)@.lemma_raise_one_more(
                    entity_group@.take(k as int).to_set(),
                    bit_mask.ones(),
                    entity,
                );
            }
            k += 1;
        }
        proof {
            assert(entity_group@.take(k as int) =~= entity_group@);
        }
    }

    /// Clears the bits of the flag mask in the mask of every entity of the
    /// group.
    pub fn remove_entity_group_flag(
        &mut self,
        entity_group: &[Entity],
        flag: F,
        variant: Option<B>,
    )
        requires
            old(self).wf(),
            old(self)@.knows_flag(flag),
            forall|k: int|
                0 <= k < entity_group@.len() ==> old(self)@.alive(#[trigger] entity_group@[k]),
        ensures
            final(self).wf(),
            final(self)@ == old(self)@.lower_all(
                entity_group@.to_set(),
                old(self)@.flag_mask(flag, variant_ones(variant)),
            ),
    {
        let bit_mask = self.flag_bit_mask(flag, variant);
        let keep = bit_mask.not();
        proof {
            old(self)@.lemma_lower_none(bit_mask.ones());
            lemma_take_none(entity_group@);
            old(self)@.lemma_flag_mask(flag, variant_ones(variant));
        }
        let mut k: usize = 0;
        while k < entity_group.len()
            invariant
                k <= entity_group@.len(),
                old(self).wf(),
                bit_mask.ones().subset_of(span(old(self)@.kinds.len(), old(self)@.width)),
                keep.ones() == span(0, B::width()).difference(bit_mask.ones()),
                forall|j: int|
                    0 <= j < entity_group@.len() ==> old(self)@.alive(#[trigger] entity_group@[j]),
                self.wf(),
                self@ == old(self)@.lower_all(
                    entity_group@.take(k as int).to_set(),
                    bit_mask.ones(),
                ),
            decreases entity_group@.len() - k,
        {
            let ghost before = self@;
            let entity = entity_group[k];
            let mask = self.mask_of(entity).and(keep);
            self.add_entity(entity, mask);
            proof {
                assert(mask.ones() =~= before.masks[entity].difference(bit_mask.ones()));
                before.lemma_lower_valid(entity, bit_mask.ones());
                lemma_take_one_more(entity_group@, k as int);
                old(self)@.lemma_lower_one_more(
                    entity_group@.take(k as int).to_set(),
                    bit_mask.ones(),
                    entity,
                );
            }
            k += 1;
        }
        proof {
            assert(entity_group@.take(k as int) =~= entity_group@);
        }
    }

    /// The column of a registered component.
    pub(crate) fn get_component_column(&self, kind: TypeId) -> (column: &HashMap<usize, V>)
        requires
            self.wf(),
            self@.knows(kind),
        ensures
            by_entity(column@) == self@.column_of(kind),
    {
        let slot = self.slot_of(kind);
        &self.component_columns[slot]
    }

    /// The registered entities whose mask holds every bit of
    /// `bit_mask_filter`, each once, in no particular order.
    pub(crate) fn get_entities(&self, bit_mask_filter: B) -> (found: Vec<Entity>)
        ensures
            found@.no_duplicates(),
            found@.to_set() == self@.matching(bit_mask_filter.ones()),
    {
        let mut found: Vec<Entity> = Vec::new();
        let ghost keys: Seq<&usize> = self.entities.keys().remaining();
        let ghost mut seen: int = 0;
        for id in iter: self.entities.keys()
            invariant
                iter.seq() == keys,
                seen == iter.index(),
                keys.no_duplicates(),
                keys.unref().to_set() == self.entities@.dom(),
                found@.no_duplicates(),
                forall|e: Entity|
                    found@.contains(e) <==> (exists|i: int|
                        0 <= i < seen && #[trigger] *keys[i] == e.0) && self@.matching(
                        bit_mask_filter.ones(),
                    ).contains(e),
        {
            let ghost before = found@;
            let ghost at = seen;
            proof {
                seen = seen + 1;
                assert(keys.unref()[at] == *id);
                assert(keys.unref().to_set().contains(*id));
            }
            let mask = self.entities.get(id);
            let mask = mask.unwrap();
            if mask.has_bits(bit_mask_filter) {
                found.push(Entity(*id));
                proof {
                    assert(found@ == before.push(Entity(*id)));
                    assert(!before.contains(Entity(*id))) by {
                        if before.contains(Entity(*id)) {
                            let i = choose|i: int| 0 <= i < at && #[trigger] *keys[i] == *id;
                            assert(keys[i] == keys[at]);
                        }
                    }
                    assert forall|e: Entity| found@.contains(e) <==> (exists|i: int|
                        0 <= i < seen && #[trigger] *keys[i] == e.0) && self@.matching(
                        bit_mask_filter.ones(),
                    ).contains(e) by {
                        if found@.contains(e) {
                            let j = choose|j: int| 0 <= j < found@.len() && found@[j] == e;
                            if j < before.len() {
                                assert(before[j] == e);
                                assert(before.contains(e));
                            } else {
                                assert(*keys[at] == e.0);
                            }
                        }
                        if (exists|i: int| 0 <= i < seen && #[trigger] *keys[i] == e.0)
                            && self@.matching(bit_mask_filter.ones()).contains(e) {
                            let i = choose|i: int| 0 <= i < seen && #[trigger] *keys[i] == e.0;
                            if i < at {
                                assert(before.contains(e));
                                let j = choose|j: int| 0 <= j < before.len() && before[j] == e;
                                assert(found@[j] == e);
                            } else {
                                assert(found@[before.len() as int] == e);
                            }
                        }
                    }
                }
            } else {
                proof {
                    assert forall|e: Entity| found@.contains(e) <==> (exists|i: int|
                        0 <= i < seen && #[trigger] *keys[i] == e.0) && self@.matching(
                        bit_mask_filter.ones(),
                    ).contains(e) by {
                        if (exists|i: int| 0 <= i < seen && #[trigger] *keys[i] == e.0)
                            && self@.matching(bit_mask_filter.ones()).contains(e) {
                            let i = choose|i: int| 0 <= i < seen && #[trigger] *keys[i] == e.0;
                            assert(i < at);
                        }
                    }
                }
            }
        }
        proof {
            assert(seen == keys.len());
            assert forall|e: Entity| found@.to_set().contains(e) == self@.matching(
                bit_mask_filter.ones(),
            ).contains(e) by {
                if self@.matching(bit_mask_filter.ones()).contains(e) {
                    assert(keys.unref().to_set().contains(e.0));
                    let i = choose|i: int| 0 <= i < keys.unref().len() && keys.unref()[i] == e.0;
                    assert(*keys[i] == e.0);
                }
            }
            assert(found@.to_set() =~= self@.matching(bit_mask_filter.ones()));
        }
        found
    }

    /// Removes `entity` from every column and from the membership table.
    pub fn delete_entity(&mut self, entity: Entity)
        requires
            old(self).wf(),
            old(self)@.alive(entity),
        ensures
            final(self).wf(),
            final(self)@ == old(self)@.delete(entity),
    {
        let entity_mask = self.mask_of(entity);
        proof {
            B::lemma_width();
        }
        let mut slot: usize = 0;
        while slot < self.component_columns.len()
            invariant
                old(self).wf(),
                old(self)@.alive(entity),
                entity_mask.ones() == old(self)@.masks[entity],
                old(self)@.columns.len() <= B::width() <= u8::MAX,
                slot <= self.component_columns.len(),
                self.component_columns.len() == old(self)@.columns.len(),
                self@ == (WorldView {
                    columns: Seq::new(
                        old(self)@.columns.len(),
                        |i: int|
                            if i < slot {
                                old(self)@.columns[i].remove(entity)
                            } else {
                                old(self)@.columns[i]
                            },
                    ),
                    ..old(self)@
                }),
            decreases self.component_columns.len() - slot,
        {
            if entity_mask.has_bits(B::bit(slot as u8)) {
                self.take_cell(slot, entity);
            } else {
                proof {
                    assert(!old(self)@.columns[slot as int].contains_key(entity));
                    assert(old(self)@.columns[slot as int].remove(entity)
                        =~= old(self)@.columns[slot as int]);
                }
            }
            proof {
                assert(self@.columns =~= Seq::new(
                    old(self)@.columns.len(),
                    |i: int|
                        if i < slot + 1 {
                            old(self)@.columns[i].remove(entity)
                        } else {
                            old(self)@.columns[i]
                        },
                ));
            }
            slot += 1;
        }
        self.entities.remove(&entity.0);
        proof {
            assert(self@.masks =~= old(self)@.masks.remove(entity));
            assert(self@.columns =~= old(self)@.delete(entity).columns);
            old(self)@.lemma_delete_valid(entity);
        }
    }

    /// Removes every entity of the group from every column and from the
    /// membership table.
    pub fn delete_entity_group(&mut self, entity_group: &[Entity])
        requires
            old(self).wf(),
            entity_group@.no_duplicates(),
            forall|k: int|
                0 <= k < entity_group@.len() ==> old(self)@.alive(#[trigger] entity_group@[k]),
        ensures
            final(self).wf(),
            final(self)@ == old(self)@.delete_all(entity_group@.to_set()),
    {
        proof {
            old(self)@.lemma_delete_none();
            lemma_take_none(entity_group@);
        }
        let mut k: usize = 0;
        while k < entity_group.len()
            invariant
                k <= entity_group@.len(),
                entity_group@.no_duplicates(),
                forall|j: int|
                    0 <= j < entity_group@.len() ==> old(self)@.alive(#[trigger] entity_group@[j]),
                self.wf(),
                self@ == old(self)@.delete_all(entity_group@.take(k as int).to_set()),
            decreases entity_group@.len() - k,
        {
            let entity = entity_group[k];
            proof {
                assert(!entity_group@.take(k as int).to_set().contains(entity)) by {
                    if entity_group@.take(k as int).contains(entity) {
                        let i = choose|i: int|
                            0 <= i < k && entity_group@.take(k as int)[i] == entity;
                        assert(entity_group@[i] == entity_group@[k as int]);
                    }
                }
                assert(old(self)@.alive(entity_group@[k as int]));
            }
            self.delete_entity(entity);
            proof {
                lemma_take_one_more(entity_group@, k as int);
                old(self)@.lemma_delete_one_more(entity_group@.take(k as int).to_set(), entity);
            }
            k += 1;
        }
        proof {
            assert(entity_group@.take(k as int) =~= entity_group@);
        }
    }

    /// Puts `component` into the column of `kind` for an entity under
    /// construction, and sets the bit of `kind` in the mask being collected
    /// for it.
    pub(crate) fn add_component_to_entity_builder(
        &mut self,
        kind: TypeId,
        component: V,
        entity: Entity,
        entity_bit_mask: &mut B,
    )
        requires
            old(self).wf(),
            old(self)@.knows(kind),
            !old(self)@.alive(entity),
            entity.0 < old(self)@.next_id,
        ensures
            final(self).wf(),
            final(self)@ == old(self)@.stage(kind, entity, component),
            final(entity_bit_mask).ones() == old(entity_bit_mask).ones().insert(
                old(self)@.bit_of(kind) as nat,
            ),
    {
        let slot = self.slot_of(kind);
        let bit_mask = B::bit(slot as u8);
        entity_bit_mask.or_assign(bit_mask);
        self.put_cell(slot, entity, component);
        proof {
            assert(entity_bit_mask.ones() =~= old(entity_bit_mask).ones().insert(slot as nat));
            old(self)@.lemma_stage_valid(kind, entity, component);
        }
    }

    /// Puts a clone of `component` into the column of `kind` for an entity
    /// under construction, and sets the bit of `kind` in the mask being
    /// collected for it.
    pub(crate) fn add_shared_component_to_entity_builder(
        &mut self,
        kind: TypeId,
        component: &V,
        entity: Entity,
        entity_bit_mask: &mut B,
    ) where V: Clone
        requires
            old(self).wf(),
            old(self)@.knows(kind),
            !old(self)@.alive(entity),
            entity.0 < old(self)@.next_id,
        ensures
            final(self).wf(),
            final(self)@.component(kind, entity) matches Some(cell) && cloned(*component, cell)
                && final(self)@ == old(self)@.stage(kind, entity, cell),
            final(entity_bit_mask).ones() == old(entity_bit_mask).ones().insert(
                old(self)@.bit_of(kind) as nat,
            ),
    {
        let cell = component.clone();
        proof {
            old(self)@.lemma_bit_of(kind);
        }
        self.add_component_to_entity_builder(kind, cell, entity, entity_bit_mask);
    }

    /// Sets the bits of the flag mask in the mask being collected for an
    /// entity under construction.
    pub(crate) fn add_flag_to_entity_builder(
        &self,
        flag: F,
        variant: Option<B>,
        entity_bit_mask: &mut B,
    )
        requires
            self.wf(),
            self@.knows_flag(flag),
        ensures
            final(entity_bit_mask).ones() == old(entity_bit_mask).ones().union(
                self@.flag_mask(flag, variant_ones(variant)),
            ),
    {
        let bit_mask = self.flag_bit_mask(flag, variant);
        entity_bit_mask.or_assign(bit_mask);
    }

    /// Hands out the next entity id, in a builder that attaches components
    /// and flags before the entity is registered.
    pub fn new_entity(&mut self) -> (builder: EntityBuilder<'_, B, F, P, V>)
        requires
            old(self).wf(),
            old(self)@.next_id < usize::MAX,
        ensures
            builder.wf(),
            builder.entity == Entity(old(self)@.next_id as usize),
            builder.bit_mask.ones() == Set::<nat>::empty(),
            builder.world@ == (WorldView { next_id: old(self)@.next_id + 1, ..old(self)@ }),
            *final(builder.world) == *final(self),
    {
        self.next_entity_id += 1;
        EntityBuilder::new(self.next_entity_id - 1, self)
    }

    /// Starts a query that so far requires nothing, and so matches every
    /// entity.
    pub fn new_query(&self) -> (builder: QueryBuilder<'_, B, F, P, V>)
        ensures
            builder.world() == *self,
            builder.mask() == Set::<nat>::empty(),
    {
        QueryBuilder::new(self)
    }
}

} // verus!
