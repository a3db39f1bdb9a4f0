//! The state of a store as mathematics, and the steps that take one state to
//! the next.

use vstd::prelude::*;
use std::any::TypeId;
use crate::bits::span;
use crate::entities::Entity;
use crate::flags::{
    distinct_flags, flag_bits, flag_held, flag_slot, knows_flag, layout_fits, Flag,
};

verus! {

/// The state of a store as mathematics: what every contract of the store
/// speaks of.
///
/// Component `i` of `kinds` owns bit `i` of every membership mask and column
/// `i` of `columns`; the flags own the bits above the components. A mask is
/// the set of its set bit positions.
#[verifier::ext_equal]
#[verifier::reject_recursive_types(P)]
pub struct WorldView<F, P, V> {
    /// Number of bits in a membership mask.
    pub width: nat,
    /// The registered component kinds, in registration order.
    pub kinds: Seq<TypeId>,
    /// The registered flags, in registration order.
    pub flags: Seq<Flag<F>>,
    /// For each component, the cell of every entity that has one.
    pub columns: Seq<Map<Entity, V>>,
    /// The cells addressed by an id of their own rather than by an entity.
    pub pointers: Map<P, V>,
    /// The membership mask of every registered entity.
    pub masks: Map<Entity, Set<nat>>,
    /// The id that the next entity will get.
    pub next_id: nat,
}

impl<F, P, V> WorldView<F, P, V> {
    /// The consistency that every operation of a store keeps.
    pub open spec fn valid(self) -> bool {
        &&& self.kinds.no_duplicates()
        &&& self.columns.len() == self.kinds.len()
        &&& distinct_flags(self.flags)
        &&& layout_fits(self.kinds.len(), self.flags, self.width)
        &&& forall|e: Entity| #[trigger]
            self.masks.contains_key(e) ==> e.0 < self.next_id && self.masks[e].subset_of(
                span(0, self.width),
            )
        &&& forall|i: int, e: Entity|
            0 <= i < self.columns.len() && #[trigger] self.columns[i].contains_key(e) ==> e.0
                < self.next_id
        &&& forall|i: int, e: Entity|
            0 <= i < self.columns.len() && self.masks.contains_key(e) ==> (
            #[trigger] self.columns[i].contains_key(e) <==> self.masks[e].contains(i as nat))
    }

    /// Whether `kind` is a registered component.
    pub open spec fn knows(self, kind: TypeId) -> bool {
        self.kinds.contains(kind)
    }

    /// The bit, and the column, of a registered component.
    pub open spec fn bit_of(self, kind: TypeId) -> int {
        self.kinds.index_of(kind)
    }

    /// The column of a registered component.
    pub open spec fn column_of(self, kind: TypeId) -> Map<Entity, V> {
        self.columns[self.bit_of(kind)]
    }

    /// Whether `id` is a registered flag.
    pub open spec fn knows_flag(self, id: F) -> bool {
        knows_flag(self.flags, id)
    }

    /// The mask of a registered flag, or of one of its variants: the flag's
    /// range, moved above the component bits.
    pub open spec fn flag_mask(self, id: F, variant: Option<Set<nat>>) -> Set<nat> {
        let flag = self.flags[flag_slot(self.flags, id)];
        flag_bits(
            (self.kinds.len() + flag.start) as nat,
            (self.kinds.len() + flag.end) as nat,
            variant,
        )
    }

    /// Whether `entity` is registered.
    pub open spec fn alive(self, entity: Entity) -> bool {
        self.masks.contains_key(entity)
    }

    /// Whether the mask of `entity` has the bit of `kind`.
    pub open spec fn has_component(self, kind: TypeId, entity: Entity) -> bool {
        self.masks[entity].contains(self.bit_of(kind) as nat)
    }

    /// The cell that the column of `kind` holds for `entity`, if any.
    pub open spec fn component(self, kind: TypeId, entity: Entity) -> Option<V> {
        if self.column_of(kind).contains_key(entity) {
            Some(self.column_of(kind)[entity])
        } else {
            None
        }
    }

    /// What `entity` answers when asked for the flag `id`. Without a variant:
    /// whether the flag is present, that is whether the mask of the entity has
    /// any bit of the flag's range. With a variant: whether the flag equals
    /// it, that is whether the bits of the mask in the flag's range are
    /// exactly those of the variant.
    pub open spec fn has_flag(self, entity: Entity, id: F, variant: Option<Set<nat>>) -> bool {
        flag_held(
            self.masks[entity],
            self.flag_mask(id, None),
            match variant {
                None => None,
                Some(_) => Some(self.flag_mask(id, variant)),
            },
        )
    }

    /// The registered entities whose mask holds every bit of `filter`.
    pub open spec fn matching(self, filter: Set<nat>) -> Set<Entity> {
        Set::new(|e: Entity| self.masks.contains_key(e) && filter.subset_of(self.masks[e]))
    }

    /// `cell` put into the column of `kind` for `entity`; the mask is left as
    /// it is.
    pub open spec fn stage(self, kind: TypeId, entity: Entity, cell: V) -> Self {
        WorldView {
            columns: self.columns.update(
                self.bit_of(kind),
                self.column_of(kind).insert(entity, cell),
            ),
            ..self
        }
    }

    /// `entity` registered with `mask`.
    pub open spec fn enroll(self, entity: Entity, mask: Set<nat>) -> Self {
        WorldView { masks: self.masks.insert(entity, mask), ..self }
    }

    /// The bits of `bits` set in the mask of `entity`.
    pub open spec fn raise(self, entity: Entity, bits: Set<nat>) -> Self {
        WorldView { masks: self.masks.insert(entity, self.masks[entity].union(bits)), ..self }
    }

    /// The bits of `bits` cleared in the mask of `entity`.
    pub open spec fn lower(self, entity: Entity, bits: Set<nat>) -> Self {
        WorldView {
            masks: self.masks.insert(entity, self.masks[entity].difference(bits)),
            ..self
        }
    }

    /// `cell` attached to `entity` as its component of `kind`.
    pub open spec fn attach(self, kind: TypeId, entity: Entity, cell: V) -> Self {
        self.stage(kind, entity, cell).raise(entity, set![self.bit_of(kind) as nat])
    }

    /// The component of `kind` taken from `entity`.
    pub open spec fn detach(self, kind: TypeId, entity: Entity) -> Self {
        WorldView {
            columns: self.columns.update(self.bit_of(kind), self.column_of(kind).remove(entity)),
            ..self
        }.lower(entity, set![self.bit_of(kind) as nat])
    }

    /// `entity` removed from the membership table and from every column.
    pub open spec fn delete(self, entity: Entity) -> Self {
        WorldView {
            columns: Seq::new(self.columns.len(), |i: int| self.columns[i].remove(entity)),
            masks: self.masks.remove(entity),
            ..self
        }
    }

    /// Every entity of `cells` given its cell as its component of `kind`.
    pub open spec fn attach_all(self, kind: TypeId, cells: Map<Entity, V>) -> Self {
        WorldView {
            columns: self.columns.update(
                self.bit_of(kind),
                self.column_of(kind).union_prefer_right(cells),
            ),
            masks: Map::new(
                |e: Entity| self.masks.contains_key(e),
                |e: Entity|
                    if cells.contains_key(e) {
                        self.masks[e].union(set![self.bit_of(kind) as nat])
                    } else {
                        self.masks[e]
                    },
            ),
            ..self
        }
    }

    /// The component of `kind` taken from every entity of `group`.
    pub open spec fn detach_all(self, kind: TypeId, group: Set<Entity>) -> Self {
        WorldView {
            columns: self.columns.update(
                self.bit_of(kind),
                self.column_of(kind).remove_keys(group),
            ),
            masks: Map::new(
                |e: Entity| self.masks.contains_key(e),
                |e: Entity|
                    if group.contains(e) {
                        self.masks[e].difference(set![self.bit_of(kind) as nat])
                    } else {
                        self.masks[e]
                    },
            ),
            ..self
        }
    }

    /// The bits of `bits` set in the mask of every entity of `group`.
    pub open spec fn raise_all(self, group: Set<Entity>, bits: Set<nat>) -> Self {
        WorldView {
            masks: Map::new(
                |e: Entity| self.masks.contains_key(e),
                |e: Entity|
                    if group.contains(e) {
                        self.masks[e].union(bits)
                    } else {
                        self.masks[e]
                    },
            ),
            ..self
        }
    }

    /// The bits of `bits` cleared in the mask of every entity of `group`.
    pub open spec fn lower_all(self, group: Set<Entity>, bits: Set<nat>) -> Self {
        WorldView {
            masks: Map::new(
                |e: Entity| self.masks.contains_key(e),
                |e: Entity|
                    if group.contains(e) {
                        self.masks[e].difference(bits)
                    } else {
                        self.masks[e]
                    },
            ),
            ..self
        }
    }

    /// Every entity of `group` removed from the membership table and from
    /// every column.
    pub open spec fn delete_all(self, group: Set<Entity>) -> Self {
        WorldView {
            columns: Seq::new(self.columns.len(), |i: int| self.columns[i].remove_keys(group)),
            masks: self.masks.remove_keys(group),
            ..self
        }
    }

    /// A registered component has a bit inside the mask and a column.
    pub proof fn lemma_bit_of(self, kind: TypeId)
        requires
            self.valid(),
            self.knows(kind),
        ensures
            0 <= self.bit_of(kind) < self.kinds.len(),
            self.kinds[self.bit_of(kind)] == kind,
            self.kinds.len() == self.columns.len(),
            self.kinds.len() <= self.width,
    {
    }

    /// The mask of a registered flag lies above the component bits and inside
    /// the field.
    pub proof fn lemma_flag_mask(self, id: F, variant: Option<Set<nat>>)
        requires
            self.valid(),
            self.knows_flag(id),
        ensures
            self.flag_mask(id, variant).subset_of(span(self.kinds.len(), self.width)),
    {
        let slot = flag_slot(self.flags, id);
        let flag = self.flags[slot];
        assert forall|i: nat| self.flag_mask(id, variant).contains(i) implies span(
            self.kinds.len(),
            self.width,
        ).contains(i) by {
            assert(flag.start < flag.end);
        }
    }

    /// Putting a cell in a column for an entity that is not registered yet
    /// keeps the store consistent.
    pub proof fn lemma_stage_valid(self, kind: TypeId, entity: Entity, cell: V)
        requires
            self.valid(),
            self.knows(kind),
            !self.alive(entity),
            entity.0 < self.next_id,
        ensures
            self.stage(kind, entity, cell).valid(),
    {
        self.lemma_bit_of(kind);
        let after = self.stage(kind, entity, cell);
        let bit = self.bit_of(kind);
        assert forall|i: int, e: Entity|
            0 <= i < after.columns.len() && after.masks.contains_key(e) implies (
        #[trigger] after.columns[i].contains_key(e) <==> after.masks[e].contains(i as nat)) by {
            assert(self.columns[i].contains_key(e) <==> self.masks[e].contains(i as nat));
        }
        assert forall|i: int, e: Entity|
            0 <= i < after.columns.len() && #[trigger] after.columns[i].contains_key(
                e,
            ) implies e.0 < after.next_id by {
            if !(i == bit && e == entity) {
                assert(self.columns[i].contains_key(e));
            }
        }
    }

    /// Registering an entity whose mask says in which columns it has a cell
    /// keeps the store consistent.
    pub proof fn lemma_enroll_valid(self, entity: Entity, mask: Set<nat>)
        requires
            self.valid(),
            entity.0 < self.next_id,
            mask.subset_of(span(0, self.width)),
            forall|i: int|
                0 <= i < self.columns.len() ==> (#[trigger] self.columns[i].contains_key(entity)
                    <==> mask.contains(i as nat)),
        ensures
            self.enroll(entity, mask).valid(),
    {
        let after = self.enroll(entity, mask);
        assert forall|i: int, e: Entity|
            0 <= i < after.columns.len() && after.masks.contains_key(e) implies (
        #[trigger] after.columns[i].contains_key(e) <==> after.masks[e].contains(i as nat)) by {
            if e != entity {
                assert(self.columns[i].contains_key(e) <==> self.masks[e].contains(i as nat));
            }
        }
    }

    /// Attaching keeps the store consistent.
    pub proof fn lemma_attach_valid(self, kind: TypeId, entity: Entity, cell: V)
        requires
            self.valid(),
            self.knows(kind),
            self.alive(entity),
        ensures
            self.attach(kind, entity, cell).valid(),
    {
        self.lemma_bit_of(kind);
        let after = self.attach(kind, entity, cell);
        let bit = self.bit_of(kind);
        assert forall|i: int, e: Entity|
            0 <= i < after.columns.len() && after.masks.contains_key(e) implies (
        #[trigger] after.columns[i].contains_key(e) <==> after.masks[e].contains(i as nat)) by {
            assert(self.columns[i].contains_key(e) <==> self.masks[e].contains(i as nat));
        }
        assert forall|i: int, e: Entity|
            0 <= i < after.columns.len() && #[trigger] after.columns[i].contains_key(
                e,
            ) implies e.0 < after.next_id by {
            if !(i == bit && e == entity) {
                assert(self.columns[i].contains_key(e));
            }
        }
    }

    /// Detaching keeps the store consistent.
    pub proof fn lemma_detach_valid(self, kind: TypeId, entity: Entity)
        requires
            self.valid(),
            self.knows(kind),
            self.alive(entity),
        ensures
            self.detach(kind, entity).valid(),
    {
        self.lemma_bit_of(kind);
        let after = self.detach(kind, entity);
        assert forall|i: int, e: Entity|
            0 <= i < after.columns.len() && after.masks.contains_key(e) implies (
        #[trigger] after.columns[i].contains_key(e) <==> after.masks[e].contains(i as nat)) by {
            assert(self.columns[i].contains_key(e) <==> self.masks[e].contains(i as nat));
        }
        assert forall|i: int, e: Entity|
            0 <= i < after.columns.len() && #[trigger] after.columns[i].contains_key(
                e,
            ) implies e.0 < after.next_id by {
            assert(self.columns[i].contains_key(e));
        }
    }

    /// Setting bits above the component bits keeps the store consistent.
    pub proof fn lemma_raise_valid(self, entity: Entity, bits: Set<nat>)
        requires
            self.valid(),
            self.alive(entity),
            bits.subset_of(span(self.kinds.len(), self.width)),
        ensures
            self.raise(entity, bits).valid(),
    {
        let after = self.raise(entity, bits);
        assert forall|i: int, e: Entity|
            0 <= i < after.columns.len() && after.masks.contains_key(e) implies (
        #[trigger] after.columns[i].contains_key(e) <==> after.masks[e].contains(i as nat)) by {
            assert(self.columns[i].contains_key(e) <==> self.masks[e].contains(i as nat));
        }
    }

    /// Clearing bits above the component bits keeps the store consistent.
    pub proof fn lemma_lower_valid(self, entity: Entity, bits: Set<nat>)
        requires
            self.valid(),
            self.alive(entity),
            bits.subset_of(span(self.kinds.len(), self.width)),
        ensures
            self.lower(entity, bits).valid(),
    {
        let after = self.lower(entity, bits);
        assert forall|i: int, e: Entity|
            0 <= i < after.columns.len() && after.masks.contains_key(e) implies (
        #[trigger] after.columns[i].contains_key(e) <==> after.masks[e].contains(i as nat)) by {
            assert(self.columns[i].contains_key(e) <==> self.masks[e].contains(i as nat));
        }
    }

    /// Deleting an entity keeps the store consistent.
    pub proof fn lemma_delete_valid(self, entity: Entity)
        requires
            self.valid(),
        ensures
            self.delete(entity).valid(),
    {
        let after = self.delete(entity);
        assert forall|i: int, e: Entity|
            0 <= i < after.columns.len() && after.masks.contains_key(e) implies (
        #[trigger] after.columns[i].contains_key(e) <==> after.masks[e].contains(i as nat)) by {
            assert(self.columns[i].contains_key(e) <==> self.masks[e].contains(i as nat));
        }
        assert forall|i: int, e: Entity|
            0 <= i < after.columns.len() && #[trigger] after.columns[i].contains_key(
                e,
            ) implies e.0 < after.next_id by {
            assert(self.columns[i].contains_key(e));
        }
    }

    /// Attaching to nobody changes nothing.
    pub proof fn lemma_attach_none(self, kind: TypeId)
        requires
            self.valid(),
            self.knows(kind),
        ensures
            self.attach_all(kind, Map::<Entity, V>::empty()) == self,
    {
        self.lemma_bit_of(kind);
        let after = self.attach_all(kind, Map::<Entity, V>::empty());
        assert(after.columns[self.bit_of(kind)] =~= self.column_of(kind));
        assert(after.columns =~= self.columns);
        assert(after.masks =~= self.masks);
    }

    /// Attaching to one more entity extends a group attachment.
    pub proof fn lemma_attach_one_more(
        self,
        kind: TypeId,
        cells: Map<Entity, V>,
        entity: Entity,
        cell: V,
    )
        requires
            self.valid(),
            self.knows(kind),
            self.alive(entity),
        ensures
            self.attach_all(kind, cells).attach(kind, entity, cell) == self.attach_all(
                kind,
                cells.insert(entity, cell),
            ),
    {
        self.lemma_bit_of(kind);
        let bit = self.bit_of(kind);
        let one = self.attach_all(kind, cells).attach(kind, entity, cell);
        let all = self.attach_all(kind, cells.insert(entity, cell));
        assert(one.columns[bit] =~= all.columns[bit]);
        assert(one.columns =~= all.columns);
        assert forall|e: Entity| one.masks.contains_key(e) implies one.masks[e] == all.masks[e] by {
            if e == entity {
                assert(one.masks[e] =~= all.masks[e]);
            }
        }
        assert(one.masks =~= all.masks);
    }

    /// Detaching from nobody changes nothing.
    pub proof fn lemma_detach_none(self, kind: TypeId)
        requires
            self.valid(),
            self.knows(kind),
        ensures
            self.detach_all(kind, Set::<Entity>::empty()) == self,
    {
        self.lemma_bit_of(kind);
        let after = self.detach_all(kind, Set::<Entity>::empty());
        assert(after.columns[self.bit_of(kind)] =~= self.column_of(kind));
        assert(after.columns =~= self.columns);
        assert(after.masks =~= self.masks);
    }

    /// Detaching from one more entity extends a group detachment.
    pub proof fn lemma_detach_one_more(self, kind: TypeId, group: Set<Entity>, entity: Entity)
        requires
            self.valid(),
            self.knows(kind),
            self.alive(entity),
        ensures
            self.detach_all(kind, group).detach(kind, entity) == self.detach_all(
                kind,
                group.insert(entity),
            ),
    {
        self.lemma_bit_of(kind);
        let bit = self.bit_of(kind);
        let one = self.detach_all(kind, group).detach(kind, entity);
        let all = self.detach_all(kind, group.insert(entity));
        assert(one.columns[bit] =~= all.columns[bit]);
        assert(one.columns =~= all.columns);
        assert forall|e: Entity| one.masks.contains_key(e) implies one.masks[e] == all.masks[e] by {
            if e == entity {
                assert(one.masks[e] =~= all.masks[e]);
            }
        }
        assert(one.masks =~= all.masks);
    }

    /// Setting bits for nobody changes nothing.
    pub proof fn lemma_raise_none(self, bits: Set<nat>)
        ensures
            self.raise_all(Set::<Entity>::empty(), bits) == self,
    {
        assert(self.raise_all(Set::<Entity>::empty(), bits).masks =~= self.masks);
    }

    /// Setting bits for one more entity extends a group setting.
    pub proof fn lemma_raise_one_more(self, group: Set<Entity>, bits: Set<nat>, entity: Entity)
        requires
            self.alive(entity),
        ensures
            self.raise_all(group, bits).raise(entity, bits) == self.raise_all(
                group.insert(entity),
                bits,
            ),
    {
        let one = self.raise_all(group, bits).raise(entity, bits);
        let all = self.raise_all(group.insert(entity), bits);
        assert forall|e: Entity| one.masks.contains_key(e) implies one.masks[e] == all.masks[e] by {
            if e == entity {
                assert(one.masks[e] =~= all.masks[e]);
            }
        }
        assert(one.masks =~= all.masks);
    }

    /// Clearing bits for nobody changes nothing.
    pub proof fn lemma_lower_none(self, bits: Set<nat>)
        ensures
            self.lower_all(Set::<Entity>::empty(), bits) == self,
    {
        assert(self.lower_all(Set::<Entity>::empty(), bits).masks =~= self.masks);
    }

    /// Clearing bits for one more entity extends a group clearing.
    pub proof fn lemma_lower_one_more(self, group: Set<Entity>, bits: Set<nat>, entity: Entity)
        requires
            self.alive(entity),
        ensures
            self.lower_all(group, bits).lower(entity, bits) == self.lower_all(
                group.insert(entity),
                bits,
            ),
    {
        let one = self.lower_all(group, bits).lower(entity, bits);
        let all = self.lower_all(group.insert(entity), bits);
        assert forall|e: Entity| one.masks.contains_key(e) implies one.masks[e] == all.masks[e] by {
            if e == entity {
                assert(one.masks[e] =~= all.masks[e]);
            }
        }
        assert(one.masks =~= all.masks);
    }

    /// Deleting nobody changes nothing.
    pub proof fn lemma_delete_none(self)
        ensures
            self.delete_all(Set::<Entity>::empty()) == self,
    {
        let after = self.delete_all(Set::<Entity>::empty());
        assert forall|i: int| 0 <= i < self.columns.len() implies #[trigger] after.columns[i]
            == self.columns[i] by {
            assert(after.columns[i] =~= self.columns[i]);
        }
        assert(after.columns =~= self.columns);
        assert(after.masks =~= self.masks);
    }

    /// Deleting one more entity extends a group deletion.
    pub proof fn lemma_delete_one_more(self, group: Set<Entity>, entity: Entity)
        ensures
            self.delete_all(group).delete(entity) == self.delete_all(group.insert(entity)),
    {
        let one = self.delete_all(group).delete(entity);
        let all = self.delete_all(group.insert(entity));
        assert forall|i: int| 0 <= i < self.columns.len() implies #[trigger] one.columns[i]
            == all.columns[i] by {
            assert(one.columns[i] =~= all.columns[i]);
        }
        assert(one.columns =~= all.columns);
        assert(one.masks =~= all.masks);
    }
}

/// A map keyed by entity ids, read as a map keyed by entities.
pub open spec fn by_entity<T>(cells: Map<usize, T>) -> Map<Entity, T> {
    Map::new(|e: Entity| cells.contains_key(e.0), |e: Entity| cells[e.0])
}

/// Reading by entity commutes with inserting a cell.
pub proof fn lemma_by_entity_insert<T>(cells: Map<usize, T>, id: usize, cell: T)
    ensures
        by_entity(cells.insert(id, cell)) == by_entity(cells).insert(Entity(id), cell),
{
    assert(by_entity(cells.insert(id, cell)) =~= by_entity(cells).insert(Entity(id), cell));
}

/// Reading by entity commutes with removing a cell.
pub proof fn lemma_by_entity_remove<T>(cells: Map<usize, T>, id: usize)
    ensures
        by_entity(cells.remove(id)) == by_entity(cells).remove(Entity(id)),
{
    assert(by_entity(cells.remove(id)) =~= by_entity(cells).remove(Entity(id)));
}

/// The set of the first `k + 1` elements is the set of the first `k` with
/// element `k` added.
pub proof fn lemma_take_one_more<T>(s: Seq<T>, k: int)
    requires
        0 <= k < s.len(),
    ensures
        s.take(k + 1).to_set() == s.take(k).to_set().insert(s[k]),
{
    let a = s.take(k + 1);
    let b = s.take(k);
    assert forall|x: T| a.to_set().contains(x) == b.to_set().insert(s[k]).contains(x) by {
        if a.contains(x) {
            let i = choose|i: int| 0 <= i < a.len() && a[i] == x;
            if i < k {
                assert(b[i] == x);
            }
        }
        if b.contains(x) {
            let i = choose|i: int| 0 <= i < b.len() && b[i] == x;
            assert(a[i] == x);
        }
        if x == s[k] {
            assert(a[k] == x);
        }
    }
    assert(a.to_set() =~= b.to_set().insert(s[k]));
}

/// No element is among the first zero.
pub proof fn lemma_take_none<T>(s: Seq<T>)
    ensures
        s.take(0).to_set() == Set::<T>::empty(),
{
    assert(s.take(0).to_set() =~= Set::<T>::empty());
}

} // verus!
