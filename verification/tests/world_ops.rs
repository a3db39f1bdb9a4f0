use std::any::TypeId;
use std::cell::RefCell;
use std::rc::Rc;

use ecs_store::entities::Entity;
use ecs_store::worlds::World;

struct Position;
struct Velocity;
struct Health;

const STATE: u8 = 1;
const TEAM: u8 = 2;

fn position() -> TypeId {
    TypeId::of::<Position>()
}

fn velocity() -> TypeId {
    TypeId::of::<Velocity>()
}

fn health() -> TypeId {
    TypeId::of::<Health>()
}

fn world() -> World<u8, u8, u8, i32> {
    World::<u8, u8, u8, i32>::builder()
        .with_component(position())
        .with_component(velocity())
        .with_component(health())
        .with_flag(STATE, 0..2)
        .with_flag(TEAM, 2..5)
        .build()
}

#[test]
fn entity_ids_count_up_from_zero() {
    let mut world = world();
    let a = world.new_entity().build();
    let b = world.new_entity().with_component(position(), 1).build();
    let c = world.new_entity().build();
    assert_eq!(a, Entity(0));
    assert_eq!(b, Entity(1));
    assert_eq!(c, Entity(2));
    world.delete_entity(b);
    let d = world.new_entity().build();
    assert_eq!(d, Entity(3));
}

#[test]
fn an_entity_is_registered_by_build_only() {
    let mut world = world();
    {
        let builder = world.new_entity().with_component(position(), 1);
        assert_eq!(builder.entity, Entity(0));
        assert!(!builder.world.contains_entity(Entity(0)));
        assert_eq!(builder.bit_mask, 0b001);
    }
    assert!(!world.contains_entity(Entity(0)));
    let e = world.new_entity().with_component(velocity(), 2).build();
    assert_eq!(e, Entity(1));
    assert!(world.contains_entity(e));
    assert!(!world.contains_entity(Entity(0)));
}

#[test]
fn the_builder_collects_components_and_flags() {
    let mut world = world();
    let e = world
        .new_entity()
        .with_component(position(), 10)
        .with_component(health(), 30)
        .with_flag(STATE, Some(2))
        .with_flag(TEAM, None)
        .build();
    assert!(world.entity_has_component(position(), e));
    assert!(!world.entity_has_component(velocity(), e));
    assert!(world.entity_has_component(health(), e));
    assert_eq!(world.get_entity_component(position(), e), Some(&10));
    assert_eq!(world.get_entity_component(velocity(), e), None);
    assert_eq!(world.get_entity_component(health(), e), Some(&30));
    assert!(world.entity_has_flag(e, STATE, Some(2)));
    assert!(!world.entity_has_flag(e, STATE, Some(1)));
    assert!(!world.entity_has_flag(e, STATE, Some(3)));
    assert!(world.entity_has_flag(e, STATE, None));
    assert!(world.entity_has_flag(e, TEAM, None));
    assert!(world.entity_has_flag(e, TEAM, Some(7)));
    assert!(!world.entity_has_flag(e, TEAM, Some(5)));
}

#[test]
fn has_component_agrees_with_the_lookup_after_each_step() {
    let mut world = world();
    let e = world.new_entity().build();
    let kinds = [position(), velocity(), health()];
    let agree = |world: &World<u8, u8, u8, i32>| {
        for k in kinds {
            assert_eq!(
                world.entity_has_component(k, e),
                world.get_entity_component(k, e).is_some()
            );
        }
    };
    agree(&world);
    world.add_component_to_entity(position(), 1, e);
    agree(&world);
    world.add_component_to_entity(velocity(), 2, e);
    agree(&world);
    world.delete_entity_component(position(), e);
    agree(&world);
    world.delete_entity_component(position(), e);
    agree(&world);
    world.add_component_to_entity(velocity(), 3, e);
    agree(&world);
    world.set_entity_flag(e, STATE, Some(3));
    agree(&world);
    world.delete_entity_component(velocity(), e);
    agree(&world);
    assert!(!world.entity_has_component(position(), e));
    assert!(!world.entity_has_component(velocity(), e));
}

#[test]
fn attaching_replaces_the_cell() {
    let mut world = world();
    let e = world.new_entity().with_component(position(), 1).build();
    world.add_component_to_entity(position(), 2, e);
    assert_eq!(world.get_entity_component(position(), e), Some(&2));
    assert!(world.entity_has_component(position(), e));
}

#[test]
fn attach_then_detach_restores_the_membership_test() {
    let mut world = world();
    let e = world.new_entity().with_component(velocity(), 5).build();
    let before = world.entity_has_component(position(), e);
    assert!(!before);
    world.add_component_to_entity(position(), 1, e);
    assert!(world.entity_has_component(position(), e));
    world.delete_entity_component(position(), e);
    assert_eq!(world.entity_has_component(position(), e), before);
    assert_eq!(world.get_entity_component(position(), e), None);
    assert!(world.entity_has_component(velocity(), e));
    assert_eq!(world.get_entity_component(velocity(), e), Some(&5));
}

#[test]
fn attach_then_detach_leaves_an_entity_that_had_the_component_without_it() {
    let mut world = world();
    let e = world.new_entity().with_component(position(), 1).build();
    world.add_component_to_entity(position(), 2, e);
    world.delete_entity_component(position(), e);
    assert!(!world.entity_has_component(position(), e));
    assert_eq!(world.get_entity_component(position(), e), None);
}

#[test]
fn detaching_what_is_not_attached_changes_nothing() {
    let mut world = world();
    let e = world.new_entity().with_component(velocity(), 5).with_flag(STATE, Some(1)).build();
    world.delete_entity_component(position(), e);
    assert!(!world.entity_has_component(position(), e));
    assert!(world.entity_has_component(velocity(), e));
    assert!(world.entity_has_flag(e, STATE, Some(1)));
}

#[test]
fn the_lookup_of_an_unknown_entity_is_absent() {
    let world = world();
    assert_eq!(world.get_entity_component(position(), Entity(42)), None);
    assert_eq!(
        world.get_entity_group_component(position(), &[Entity(1), Entity(2)]),
        vec![None, None]
    );
}

#[test]
fn setting_a_variant_then_testing_it_succeeds() {
    for variant in 0..8u8 {
        let mut world = world();
        let e = world.new_entity().build();
        world.set_entity_flag(e, TEAM, Some(variant));
        assert!(world.entity_has_flag(e, TEAM, Some(variant)));
    }
}

#[test]
fn testing_another_variant_fails() {
    for set in 0..8u8 {
        for tested in 0..8u8 {
            let mut world = world();
            let e = world.new_entity().build();
            world.set_entity_flag(e, TEAM, Some(set));
            assert_eq!(world.entity_has_flag(e, TEAM, Some(tested)), tested == set);
        }
    }
}

#[test]
fn a_variant_is_read_within_the_width_of_its_flag() {
    let mut world = world();
    let e = world.new_entity().build();
    world.set_entity_flag(e, STATE, Some(0b110));
    assert!(world.entity_has_flag(e, STATE, Some(0b10)));
    assert!(world.entity_has_flag(e, STATE, Some(0b110)));
    assert!(!world.entity_has_flag(e, STATE, Some(0b11)));
    assert!(!world.entity_has_flag(e, TEAM, None));
}

#[test]
fn setting_a_second_variant_adds_its_bits_to_the_first() {
    let mut world = world();
    let e = world.new_entity().build();
    world.set_entity_flag(e, STATE, Some(1));
    world.set_entity_flag(e, STATE, Some(2));
    assert!(!world.entity_has_flag(e, STATE, Some(2)));
    assert!(!world.entity_has_flag(e, STATE, Some(1)));
    assert!(world.entity_has_flag(e, STATE, Some(3)));
    world.remove_entity_flag(e, STATE, Some(1));
    assert!(world.entity_has_flag(e, STATE, Some(2)));
}

#[test]
fn a_flag_without_variant_asks_whether_the_flag_is_present() {
    let mut world = world();
    let e = world.new_entity().build();
    assert!(!world.entity_has_flag(e, STATE, None));
    assert!(world.entity_has_flag(e, STATE, Some(0)));
    world.set_entity_flag(e, STATE, Some(1));
    assert!(world.entity_has_flag(e, STATE, None));
    assert!(!world.entity_has_flag(e, STATE, Some(0)));
    assert!(!world.entity_has_flag(e, TEAM, None));
    world.set_entity_flag(e, STATE, Some(0));
    assert!(world.entity_has_flag(e, STATE, Some(1)));
}

#[test]
fn setting_and_removing_a_flag_without_variant_acts_on_its_whole_range() {
    let mut world = world();
    let e = world.new_entity().build();
    world.set_entity_flag(e, STATE, None);
    assert!(world.entity_has_flag(e, STATE, None));
    assert!(world.entity_has_flag(e, STATE, Some(3)));
    assert!(!world.entity_has_flag(e, TEAM, None));
    world.set_entity_flag(e, TEAM, Some(2));
    world.remove_entity_flag(e, STATE, None);
    assert!(!world.entity_has_flag(e, STATE, None));
    assert!(world.entity_has_flag(e, STATE, Some(0)));
    assert!(world.entity_has_flag(e, TEAM, Some(2)));
}

#[test]
fn removing_a_variant_clears_its_bits_only() {
    let mut world = world();
    let e = world.new_entity().with_component(position(), 1).build();
    world.set_entity_flag(e, TEAM, Some(0b111));
    world.set_entity_flag(e, STATE, Some(2));
    world.remove_entity_flag(e, TEAM, Some(0b010));
    assert!(world.entity_has_flag(e, TEAM, Some(0b101)));
    assert!(!world.entity_has_flag(e, TEAM, Some(0b010)));
    assert!(!world.entity_has_flag(e, TEAM, Some(0b111)));
    assert!(world.entity_has_flag(e, TEAM, None));
    assert!(world.entity_has_flag(e, STATE, Some(2)));
    assert!(world.entity_has_component(position(), e));
}

#[test]
fn flags_do_not_touch_components_nor_components_flags() {
    let mut world = world();
    let e = world.new_entity().build();
    world.set_entity_flag(e, STATE, None);
    world.set_entity_flag(e, TEAM, None);
    assert!(!world.entity_has_component(position(), e));
    assert!(!world.entity_has_component(velocity(), e));
    assert!(!world.entity_has_component(health(), e));
    world.remove_entity_flag(e, STATE, None);
    world.remove_entity_flag(e, TEAM, None);
    world.add_component_to_entity(position(), 1, e);
    world.add_component_to_entity(velocity(), 1, e);
    world.add_component_to_entity(health(), 1, e);
    assert!(!world.entity_has_flag(e, STATE, None));
    assert!(!world.entity_has_flag(e, TEAM, None));
    assert!(world.entity_has_flag(e, STATE, Some(0)));
    assert!(!world.entity_has_flag(e, STATE, Some(1)));
    assert!(!world.entity_has_flag(e, STATE, Some(2)));
    assert!(!world.entity_has_flag(e, TEAM, Some(1)));
}

#[test]
fn group_tests_answer_entity_by_entity() {
    let mut world = world();
    let a = world.new_entity().with_component(position(), 1).with_flag(STATE, Some(1)).build();
    let b = world.new_entity().with_component(velocity(), 2).build();
    let c = world.new_entity().with_component(position(), 3).with_flag(STATE, Some(3)).build();
    assert_eq!(
        world.entity_group_has_component(position(), &[a, b, c, a]),
        vec![true, false, true, true]
    );
    assert_eq!(world.entity_group_has_component(velocity(), &[a, b, c]), vec![false, true, false]);
    assert_eq!(world.entity_group_has_component(velocity(), &[]), Vec::<bool>::new());
    assert_eq!(world.entity_group_has_flag(&[a, b, c], STATE, Some(1)), vec![true, false, false]);
    assert_eq!(world.entity_group_has_flag(&[a, b, c], STATE, Some(2)), vec![false, false, false]);
    assert_eq!(world.entity_group_has_flag(&[a, b, c], STATE, Some(3)), vec![false, false, true]);
    assert_eq!(world.entity_group_has_flag(&[a, b, c], STATE, Some(0)), vec![false, true, false]);
    assert_eq!(world.entity_group_has_flag(&[c, a, b], STATE, None), vec![true, true, false]);
    assert_eq!(world.entity_group_has_flag(&[], STATE, None), Vec::<bool>::new());
    assert_eq!(
        world.get_entity_group_component(position(), &[a, b, c]),
        vec![Some(&1), None, Some(&3)]
    );
}

#[test]
fn a_group_attach_gives_every_entity_of_the_group_a_cell() {
    let mut world = world();
    let a = world.new_entity().build();
    let b = world.new_entity().with_component(health(), 9).build();
    let c = world.new_entity().build();
    world.add_component_to_entity_group(health(), 50, &[a, b]);
    assert_eq!(
        world.get_entity_group_component(health(), &[a, b, c]),
        vec![Some(&50), Some(&50), None]
    );
    assert_eq!(world.entity_group_has_component(health(), &[a, b, c]), vec![true, true, false]);
    world.add_shared_component_to_entity_group(position(), &7, &[c, c]);
    assert_eq!(
        world.get_entity_group_component(position(), &[a, b, c]),
        vec![None, None, Some(&7)]
    );
    world.add_component_to_entity_group(velocity(), 1, &[]);
    assert_eq!(world.entity_group_has_component(velocity(), &[a, b, c]), vec![false, false, false]);
}

#[test]
fn a_group_detach_takes_the_component_from_the_group_only() {
    let mut world = world();
    let a = world.new_entity().with_component(position(), 1).build();
    let b = world.new_entity().with_component(position(), 2).build();
    let c = world.new_entity().with_component(position(), 3).with_component(velocity(), 4).build();
    world.delete_entity_group_component(position(), &[a, c, a]);
    assert_eq!(
        world.get_entity_group_component(position(), &[a, b, c]),
        vec![None, Some(&2), None]
    );
    assert_eq!(world.entity_group_has_component(position(), &[a, b, c]), vec![false, true, false]);
    assert!(world.entity_has_component(velocity(), c));
}

#[test]
fn group_flags_are_set_and_cleared_for_the_group_only() {
    let mut world = world();
    let a = world.new_entity().build();
    let b = world.new_entity().build();
    let c = world.new_entity().build();
    world.set_entity_group_flag(&[a, b], TEAM, Some(5));
    assert_eq!(world.entity_group_has_flag(&[a, b, c], TEAM, Some(5)), vec![true, true, false]);
    world.remove_entity_group_flag(&[b, c], TEAM, Some(4));
    assert_eq!(world.entity_group_has_flag(&[a, b, c], TEAM, Some(5)), vec![true, false, false]);
    assert_eq!(world.entity_group_has_flag(&[a, b, c], TEAM, Some(1)), vec![false, true, false]);
    assert_eq!(world.entity_group_has_flag(&[a, b, c], TEAM, Some(4)), vec![false, false, false]);
    assert_eq!(world.entity_group_has_flag(&[a, b, c], TEAM, None), vec![true, true, false]);
}

#[test]
fn a_shared_component_is_one_cell_for_all_who_hold_it() {
    let mut world = World::<u16, u8, u8, Rc<RefCell<i32>>>::builder()
        .with_component(position())
        .with_component(velocity())
        .build();
    let shared = Rc::new(RefCell::new(1));
    let a = world.new_entity().with_shared_component(position(), &shared).build();
    let b = world.new_entity().build();
    let c = world.new_entity().build();
    world.add_shared_component_to_entity(position(), &shared, b);
    world.add_shared_component_to_entity_group(velocity(), &shared, &[a, c]);
    *shared.borrow_mut() = 2;
    assert_eq!(*world.get_entity_component(position(), a).unwrap().borrow(), 2);
    assert_eq!(*world.get_entity_component(position(), b).unwrap().borrow(), 2);
    assert_eq!(*world.get_entity_component(velocity(), c).unwrap().borrow(), 2);
    *world.get_entity_component(velocity(), a).unwrap().borrow_mut() = 3;
    assert_eq!(*shared.borrow(), 3);
    assert!(Rc::ptr_eq(world.get_entity_component(position(), a).unwrap(), &shared));
    assert_eq!(Rc::strong_count(&shared), 5);
    world.delete_entity(a);
    assert_eq!(Rc::strong_count(&shared), 3);
    world.delete_entity_component(position(), b);
    assert_eq!(Rc::strong_count(&shared), 2);
}

#[test]
fn an_owned_component_is_moved_into_the_store() {
    let mut world = World::<u16, u8, u8, Rc<RefCell<i32>>>::builder()
        .with_component(position())
        .build();
    let e = world.new_entity().with_component(position(), Rc::new(RefCell::new(4))).build();
    let cell = world.get_entity_component(position(), e).unwrap();
    assert_eq!(Rc::strong_count(cell), 1);
    assert_eq!(*cell.borrow(), 4);
}

#[test]
fn deleting_an_entity_clears_every_column_and_the_table() {
    let mut world = world();
    let a = world
        .new_entity()
        .with_component(position(), 1)
        .with_component(velocity(), 2)
        .with_flag(STATE, Some(1))
        .build();
    let b = world.new_entity().with_component(position(), 3).build();
    world.delete_entity(a);
    assert!(!world.contains_entity(a));
    assert!(world.contains_entity(b));
    assert_eq!(world.get_entity_component(position(), a), None);
    assert_eq!(world.get_entity_component(velocity(), a), None);
    assert_eq!(world.get_entity_component(health(), a), None);
    assert_eq!(world.get_entity_component(position(), b), Some(&3));
    assert!(world.entity_has_component(position(), b));
}

#[test]
fn deleting_a_group_removes_each_of_its_entities() {
    let mut world = world();
    let a = world.new_entity().with_component(position(), 1).build();
    let b = world.new_entity().with_component(position(), 2).build();
    let c = world.new_entity().with_component(position(), 3).build();
    world.delete_entity_group(&[c, a]);
    assert!(!world.contains_entity(a));
    assert!(world.contains_entity(b));
    assert!(!world.contains_entity(c));
    assert_eq!(
        world.get_entity_group_component(position(), &[a, b, c]),
        vec![None, Some(&2), None]
    );
    world.delete_entity_group(&[]);
    assert!(world.contains_entity(b));
}

#[test]
fn wide_masks_hold_components_and_flags_in_their_upper_half() {
    let mut builder = World::<u128, u8, u8, u8>::builder();
    let kinds = [
        TypeId::of::<[u8; 1]>(),
        TypeId::of::<[u8; 2]>(),
        TypeId::of::<[u8; 3]>(),
        TypeId::of::<[u8; 4]>(),
        TypeId::of::<[u8; 5]>(),
    ];
    for k in kinds {
        builder = builder.with_component(k);
    }
    let builder = builder.with_flag(1, 90..123);
    assert!(builder.fits());
    let mut world = builder.build();
    assert_eq!(world.flag_bit_mask(1, Some(1)), 1u128 << 95);
    assert_eq!(world.flag_bit_mask(1, Some(1u128 << 32)), 1u128 << 127);
    assert_eq!(world.flag_bit_mask(1, Some(1u128 << 33)), 0);
    let e = world.new_entity().with_component(kinds[4], 1).with_flag(1, Some(1u128 << 32)).build();
    assert!(world.entity_has_component(kinds[4], e));
    assert!(!world.entity_has_component(kinds[0], e));
    assert!(world.entity_has_flag(e, 1, Some(1u128 << 32)));
    assert!(!world.entity_has_flag(e, 1, Some(1)));
}

#[test]
fn a_fresh_store_has_free_ids() {
    let mut world = world();
    assert!(world.has_free_id());
    let _ = world.new_entity().build();
    assert!(world.has_free_id());
}
