//! Queries: a filter collected clause by clause, and the snapshot of the
//! entities that matched it.

use vstd::prelude::*;
use std::any::TypeId;
use std::hash::Hash;
use crate::bits::BitField;
use crate::entities::Entity;
use crate::flags::variant_ones;
use crate::worlds::World;

verus! {

/// The entities that matched a filter when the query was built, and the
/// store they were found in.
#[verifier::reject_recursive_types(P)]
pub struct Query<'world, B, F, P, V> {
    entities: Vec<Entity>,
    world: &'world World<B, F, P, V>,
}

/// A filter under construction: the bits that an entity must have to match.
#[verifier::reject_recursive_types(P)]
pub struct QueryBuilder<'world, B, F, P, V> {
    bit_mask: B,
    world: &'world World<B, F, P, V>,
}

impl<'world, B: BitField, F: BitField, P: Hash + Eq, V> Query<'world, B, F, P, V> {
    /// The store that was queried.
    pub closed spec fn world(&self) -> World<B, F, P, V> {
        *self.world
    }

    /// The entities that matched, in the order in which they are handed out.
    pub closed spec fn entities(&self) -> Seq<Entity> {
        self.entities@
    }

    /// For each entity of the snapshot its cell for the component `kind`.
    /// Every entity of the snapshot has to have one.
    pub fn get_components(&self, kind: TypeId) -> (cells: Vec<&V>)
        requires
            self.world().wf(),
            self.world()@.knows(kind),
            forall|k: int|
                0 <= k < self.entities().len() ==> self.world()@.component(
                    kind,
                    #[trigger] self.entities()[k],
                ).is_some(),
        ensures
            cells@.len() == self.entities().len(),
            forall|k: int|
                0 <= k < self.entities().len() ==> self.world()@.component(
                    kind,
                    self.entities()[k],
                ) == Some(*#[trigger] cells@[k]),
    {
        let component_column = self.world.get_component_column(kind);
        let mut cells: Vec<&V> = Vec::new();
        let mut k: usize = 0;
        while k < self.entities.len()
            invariant
                k <= self.entities@.len(),
                cells@.len() == k,
                crate::model::by_entity(component_column@) == self.world@.column_of(kind),
                forall|j: int|
                    0 <= j < self.entities@.len() ==> self.world@.component(
                        kind,
                        #[trigger] self.entities@[j],
                    ).is_some(),
                forall|j: int|
                    0 <= j < k ==> self.world@.component(kind, self.entities@[j]) == Some(
                        *#[trigger] cells@[j],
                    ),
            decreases self.entities@.len() - k,
        {
            let found = component_column.get(&self.entities[k].0);
            assert(self.world@.component(kind, self.entities@[k as int]).is_some());
            cells.push(found.unwrap());
            k += 1;
        }
        cells
    }

    /// For each entity of the snapshot its cell for the component `kind`, if
    /// it has one.
    pub fn try_get_components(&self, kind: TypeId) -> (cells: Vec<Option<&V>>)
        requires
            self.world().wf(),
            self.world()@.knows(kind),
        ensures
            cells@.len() == self.entities().len(),
            forall|k: int|
                0 <= k < self.entities().len() ==> match #[trigger] cells@[k] {
                    Some(cell) => self.world()@.component(kind, self.entities()[k]) == Some(*cell),
                    None => self.world()@.component(kind, self.entities()[k]).is_none(),
                },
    {
        self.world.get_entity_group_component(kind, self.entities.as_slice())
    }

    /// The entities that matched when the query was built.
    pub fn get_entities(&self) -> (entities: Vec<Entity>)
        ensures
            entities@ == self.entities(),
    {
        let mut entities: Vec<Entity> = Vec::new();
        let mut k: usize = 0;
        while k < self.entities.len()
            invariant
                k <= self.entities@.len(),
                entities@ == self.entities@.take(k as int),
            decreases self.entities@.len() - k,
        {
            entities.push(self.entities[k]);
            proof {
                assert(self.entities@.take(k + 1) =~= self.entities@.take(k as int).push(
                    self.entities@[k as int],
                ));
            }
            k += 1;
        }
        proof {
            assert(self.entities@.take(k as int) =~= self.entities@);
        }
        entities
    }
}

impl<'world, B: BitField, F: BitField, P: Hash + Eq, V> QueryBuilder<'world, B, F, P, V> {
    /// The store that will be queried.
    pub closed spec fn world(&self) -> World<B, F, P, V> {
        *self.world
    }

    /// The bits required so far.
    pub closed spec fn mask(&self) -> Set<nat> {
        self.bit_mask.ones()
    }

    /// A filter on `world` that requires nothing.
    pub(crate) fn new(world: &'world World<B, F, P, V>) -> (builder: Self)
        ensures
            builder.world() == *world,
            builder.mask() == Set::<nat>::empty(),
    {
        QueryBuilder { bit_mask: B::zero(), world }
    }

    /// Requires the component `kind`.
    pub fn with_component(self, kind: TypeId) -> (next: Self)
        requires
            self.world().wf(),
            self.world()@.knows(kind),
        ensures
            next.world() == self.world(),
            next.mask() == self.mask().insert(self.world()@.bit_of(kind) as nat),
    {
        let mut next = self;
        let bit_mask = next.world.component_bit_mask(kind);
        next.bit_mask.or_assign(bit_mask);
        proof {
            assert(next.bit_mask.ones() =~= self.bit_mask.ones().insert(
                self.world@.bit_of(kind) as nat,
            ));
        }
        next
    }

    /// Requires the bits of the flag mask: the whole range of the flag when
    /// `variant` is `None`, else the bits of the variant.
    pub fn with_flag(self, flag: F, variant: Option<B>) -> (next: Self)
        requires
            self.world().wf(),
            self.world()@.knows_flag(flag),
        ensures
            next.world() == self.world(),
            next.mask() == self.mask().union(
                self.world()@.flag_mask(flag, variant_ones(variant)),
            ),
    {
        let mut next = self;
        let bit_mask = next.world.flag_bit_mask(flag, variant);
        next.bit_mask.or_assign(bit_mask);
        next
    }

    /// Evaluates the filter once: the snapshot of the entities whose mask
    /// holds every required bit.
    pub fn build(self) -> (query: Query<'world, B, F, P, V>)
        ensures
            query.world() == self.world(),
            query.entities().no_duplicates(),
            query.entities().to_set() == self.world()@.matching(self.mask()),
    {
        let entities = self.world.get_entities(self.bit_mask);
        Query { entities, world: self.world }
    }
}

} // verus!
