use std::any::TypeId;
use std::collections::HashSet;

use ecs_store::entities::Entity;
use ecs_store::worlds::World;

struct Position;
struct Velocity;
struct Health;

const STATE: u8 = 1;

fn position() -> TypeId {
    TypeId::of::<Position>()
}

fn velocity() -> TypeId {
    TypeId::of::<Velocity>()
}

fn health() -> TypeId {
    TypeId::of::<Health>()
}

fn set_of(entities: Vec<Entity>) -> HashSet<Entity> {
    let count = entities.len();
    let set: HashSet<Entity> = entities.into_iter().collect();
    assert_eq!(set.len(), count);
    set
}

fn populated() -> (World<u16, u8, u8, i32>, Vec<Entity>) {
    let mut world = World::<u16, u8, u8, i32>::builder()
        .with_component(position())
        .with_component(velocity())
        .with_component(health())
        .with_flag(STATE, 0..2)
        .build();
    let mut entities = Vec::new();
    for i in 0..16usize {
        let mut builder = world.new_entity();
        if i & 1 != 0 {
            builder = builder.with_component(position(), i as i32);
        }
        if i & 2 != 0 {
            builder = builder.with_component(velocity(), 100 + i as i32);
        }
        if i & 4 != 0 {
            builder = builder.with_component(health(), 200 + i as i32);
        }
        if i & 8 != 0 {
            builder = builder.with_flag(STATE, Some(2));
        }
        entities.push(builder.build());
    }
    (world, entities)
}

#[test]
fn a_query_without_clauses_returns_every_entity() {
    let (world, entities) = populated();
    let found = set_of(world.new_query().build().get_entities());
    assert_eq!(found, entities.into_iter().collect());
}

#[test]
fn a_query_on_an_empty_store_returns_nothing() {
    let world = World::<u8, u8, u8, i32>::builder().with_component(position()).build();
    assert!(world.new_query().build().get_entities().is_empty());
    assert!(world.new_query().with_component(position()).build().get_entities().is_empty());
}

#[test]
fn a_query_returns_the_entities_that_have_every_required_component() {
    let (world, entities) = populated();
    let found = set_of(
        world
            .new_query()
            .with_component(position())
            .with_component(health())
            .build()
            .get_entities(),
    );
    let expected: HashSet<Entity> =
        entities.iter().copied().filter(|e| e.0 & 1 != 0 && e.0 & 4 != 0).collect();
    assert_eq!(found, expected);
    assert_eq!(found.len(), 4);
}

#[test]
fn a_query_with_a_flag_variant_returns_the_entities_that_hold_its_bits() {
    let (world, entities) = populated();
    let found = set_of(world.new_query().with_flag(STATE, Some(2)).build().get_entities());
    let expected: HashSet<Entity> = entities.iter().copied().filter(|e| e.0 & 8 != 0).collect();
    assert_eq!(found, expected);
    let none = world.new_query().with_flag(STATE, Some(1)).build().get_entities();
    assert!(none.is_empty());
    let whole = world.new_query().with_flag(STATE, None).build().get_entities();
    assert!(whole.is_empty());
    let zero = set_of(world.new_query().with_flag(STATE, Some(0)).build().get_entities());
    assert_eq!(zero.len(), 16);
}

#[test]
fn a_query_with_more_clauses_returns_a_subset() {
    let (world, _) = populated();
    let clauses = [position(), velocity(), health()];
    for a in clauses {
        let with_a = set_of(world.new_query().with_component(a).build().get_entities());
        for b in clauses {
            let both = world.new_query().with_component(a).with_component(b).build();
            let with_both = set_of(both.get_entities());
            assert!(with_both.is_subset(&with_a));
            let with_flag = set_of(
                world
                    .new_query()
                    .with_component(a)
                    .with_flag(STATE, Some(2))
                    .build()
                    .get_entities(),
            );
            assert!(with_flag.is_subset(&with_a));
        }
    }
}

#[test]
fn get_components_hands_out_the_cell_of_each_entity_of_the_snapshot() {
    let (world, _) = populated();
    let query = world.new_query().with_component(velocity()).build();
    let entities = query.get_entities();
    let cells = query.get_components(velocity());
    assert_eq!(cells.len(), entities.len());
    assert_eq!(cells.len(), 8);
    for (entity, cell) in entities.iter().zip(cells) {
        assert_eq!(*cell, 100 + entity.0 as i32);
    }
}

#[test]
fn try_get_components_says_absent_for_the_entities_that_lack_the_component() {
    let (world, _) = populated();
    let query = world.new_query().with_component(velocity()).build();
    let entities = query.get_entities();
    let cells = query.try_get_components(position());
    assert_eq!(cells.len(), entities.len());
    for (entity, cell) in entities.iter().zip(cells) {
        if entity.0 & 1 != 0 {
            assert_eq!(cell, Some(&(entity.0 as i32)));
        } else {
            assert_eq!(cell, None);
        }
    }
}

#[test]
fn get_entities_hands_out_the_same_snapshot_each_time() {
    let (world, _) = populated();
    let query = world.new_query().with_component(health()).build();
    assert_eq!(query.get_entities(), query.get_entities());
    assert_eq!(query.get_entities().len(), 8);
}

#[test]
fn no_query_returns_a_deleted_entity() {
    let (mut world, entities) = populated();
    let gone = entities[15];
    world.delete_entity(gone);
    let all = set_of(world.new_query().build().get_entities());
    assert!(!all.contains(&gone));
    assert_eq!(all.len(), 15);
    for k in [position(), velocity(), health()] {
        let found = world.new_query().with_component(k).build().get_entities();
        assert!(!found.contains(&gone));
        assert_eq!(found.len(), 7);
    }
    let flagged = world.new_query().with_flag(STATE, Some(2)).build().get_entities();
    assert!(!flagged.contains(&gone));
    assert_eq!(flagged.len(), 7);
}

#[test]
fn a_query_sees_attachments_made_before_it_was_built() {
    let (mut world, entities) = populated();
    world.add_component_to_entity(position(), 5, entities[0]);
    world.delete_entity_component(position(), entities[1]);
    world.set_entity_flag(entities[0], STATE, Some(1));
    let found = set_of(world.new_query().with_component(position()).build().get_entities());
    assert!(found.contains(&entities[0]));
    assert!(!found.contains(&entities[1]));
    let flagged = set_of(world.new_query().with_flag(STATE, Some(1)).build().get_entities());
    assert_eq!(flagged, HashSet::from([entities[0]]));
}
