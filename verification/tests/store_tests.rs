use ecs_core::store::ECS;

/// A component value type carrying the two component shapes these tests
/// attach, one registry key per shape.
#[derive(Copy, Clone, Debug, PartialEq)]
enum Comp {
    F(f32),
    I(i32),
}

const FLOAT_KEY: u64 = 0;
const INT_KEY: u64 = 1;

#[test]
fn ecs_find_all_components_works() {
    let mut ecs: ECS<Comp> = ECS::new();

    let e0 = ecs.new_entity();
    let e1 = ecs.new_entity();

    ecs.set_component(FLOAT_KEY, e0, Comp::F(1.0));
    ecs.set_component(INT_KEY, e0, Comp::I(1));
    ecs.set_component(INT_KEY, e1, Comp::I(2));

    for &(e, c) in ecs.find_all_components(INT_KEY).iter() {
        assert!(e == e0 && *c == Comp::I(1) || e == e1 && *c == Comp::I(2));
    }
}

#[test]
fn ecs_remove_component_works() {
    let mut ecs: ECS<Comp> = ECS::new();

    let e0 = ecs.new_entity();
    ecs.set_component(FLOAT_KEY, e0, Comp::F(1.0));
    assert!(ecs.get_component(FLOAT_KEY, e0).is_some());
    ecs.remove_component(FLOAT_KEY, e0);
    assert!(ecs.get_component(FLOAT_KEY, e0).is_none());
}

#[test]
fn set_then_get_round_trips() {
    let mut ecs: ECS<u64> = ECS::new();

    let e = ecs.new_entity();
    let stored = *ecs.set_component(3, e, 42);
    assert_eq!(stored, 42);
    assert_eq!(ecs.get_component(3, e), Some(&42));
    assert!(ecs.has_component(3, e));
}

#[test]
fn component_does_not_leak_to_reused_slot() {
    let mut ecs: ECS<u64> = ECS::new();

    let e0 = ecs.new_entity();
    ecs.set_component(5, e0, 99);
    ecs.destroy_entity(e0);

    // the new entity reuses e0's slot position at a newer generation
    let e1 = ecs.new_entity();
    assert!(ecs.is_entity_valid(e1));
    assert!(!ecs.is_entity_valid(e0));
    assert!(ecs.get_component(5, e1).is_none());
    assert!(!ecs.has_component(5, e1));
}

#[test]
fn enumeration_excludes_destroyed_entities() {
    let mut ecs: ECS<u64> = ECS::new();

    let e0 = ecs.new_entity();
    let e1 = ecs.new_entity();
    let e2 = ecs.new_entity();
    ecs.set_component(2, e0, 10);
    ecs.set_component(2, e1, 11);
    ecs.set_component(2, e2, 12);

    ecs.destroy_entity(e2);

    let found = ecs.find_all_components(2);
    assert_eq!(found.len(), 2);
    assert!(found[0].0 == e0 && *found[0].1 == 10);
    assert!(found[1].0 == e1 && *found[1].1 == 11);
}

#[test]
fn end_to_end_scenario() {
    let mut ecs: ECS<Comp> = ECS::new();

    let e0 = ecs.new_entity();
    let e1 = ecs.new_entity();
    ecs.set_component(FLOAT_KEY, e0, Comp::F(1.0));
    ecs.set_component(INT_KEY, e0, Comp::I(1));
    ecs.set_component(INT_KEY, e1, Comp::I(2));

    let ints = ecs.find_all_components(INT_KEY);
    assert_eq!(ints.len(), 2);
    assert!(ints[0].0 == e0 && *ints[0].1 == Comp::I(1));
    assert!(ints[1].0 == e1 && *ints[1].1 == Comp::I(2));

    assert!(ecs.get_component(FLOAT_KEY, e1).is_none());

    ecs.destroy_entity(e0);
    // every liveness-preconditioned call on e0 is now a usage fault; the
    // defensive check callers must make reports exactly that
    assert!(!ecs.is_entity_valid(e0));

    let ints_after = ecs.find_all_components(INT_KEY);
    assert_eq!(ints_after.len(), 1);
    assert!(ints_after[0].0 == e1 && *ints_after[0].1 == Comp::I(2));
}

#[test]
fn destroy_is_idempotent_and_slot_is_reused() {
    let mut ecs: ECS<u64> = ECS::new();

    let e0 = ecs.new_entity();
    assert!(ecs.is_entity_valid(e0));
    ecs.destroy_entity(e0);
    assert!(!ecs.is_entity_valid(e0));
    // destroying an already-dead handle is a silent no-op
    ecs.destroy_entity(e0);
    assert!(!ecs.is_entity_valid(e0));

    let e1 = ecs.new_entity();
    assert!(ecs.is_entity_valid(e1));
    assert!(!ecs.is_entity_valid(e0));
    assert!(e0 != e1);
}

#[test]
fn unregistered_component_type_reads_as_absent() {
    let mut ecs: ECS<u64> = ECS::new();

    let e = ecs.new_entity();
    assert!(ecs.get_component(8, e).is_none());
    assert!(!ecs.has_component(8, e));
    assert!(ecs.find_all_components(8).is_empty());
    // removing a component type no entity ever carried is a no-op
    ecs.remove_component(8, e);
    assert!(ecs.get_component(8, e).is_none());
}

#[test]
fn get_component_mut_updates_in_place() {
    let mut ecs: ECS<u64> = ECS::new();

    let e = ecs.new_entity();
    ecs.set_component(1, e, 7);
    match ecs.get_component_mut(1, e) {
        Some(v) => *v = 8,
        None => assert!(false),
    }
    assert_eq!(ecs.get_component(1, e), Some(&8));
    assert!(ecs.get_component_mut(4, e).is_none());
}

#[test]
fn set_component_overwrites_previous_value() {
    let mut ecs: ECS<u64> = ECS::new();

    let e = ecs.new_entity();
    ecs.set_component(6, e, 1);
    ecs.set_component(6, e, 2);
    assert_eq!(ecs.get_component(6, e), Some(&2));

    let all = ecs.find_all_components(6);
    assert_eq!(all.len(), 1);
    assert!(all[0].0 == e && *all[0].1 == 2);
}

#[test]
fn components_of_different_types_are_independent() {
    let mut ecs: ECS<u64> = ECS::new();

    let e = ecs.new_entity();
    ecs.set_component(1, e, 10);
    ecs.set_component(2, e, 20);
    ecs.remove_component(1, e);
    assert!(ecs.get_component(1, e).is_none());
    assert_eq!(ecs.get_component(2, e), Some(&20));
}

#[test]
fn remove_component_is_safe_on_doomed_handles() {
    let mut ecs: ECS<u64> = ECS::new();

    let e0 = ecs.new_entity();
    ecs.set_component(3, e0, 30);
    ecs.destroy_entity(e0);
    // removal has no liveness precondition
    ecs.remove_component(3, e0);

    let e1 = ecs.new_entity();
    assert!(ecs.get_component(3, e1).is_none());
}
