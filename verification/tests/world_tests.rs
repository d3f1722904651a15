use lagom_ecs::world::World;
use lagom_ecs::EcsError;

const TAG_A: u64 = 101;
const TAG_B: u64 = 102;
const TAG_C: u64 = 103;
const TAG_D: u64 = 104;

fn contains(res: &Vec<usize>, e: usize) -> bool {
    res.iter().any(|&x| x == e)
}

#[test]
fn add_component() {
    let mut world = World::new();

    let entity = world.create_entity();
    world.add_component(entity, TAG_A, 1).unwrap();
    world.add_component(entity, TAG_B, 2).unwrap();

    assert!(world.has_component(entity, TAG_A));
    assert!(world.has_component(entity, TAG_B));
    assert!(!world.has_component(entity, TAG_D));
}

#[test]
fn remove_component() {
    let mut world = World::new();

    let entity = world.create_entity();
    world.add_component(entity, TAG_A, 1).unwrap();
    world.add_component(entity, TAG_B, 2).unwrap();
    world.add_component(entity, TAG_C, 3).unwrap();

    assert!(world.has_component(entity, TAG_A));
    assert!(world.has_component(entity, TAG_B));
    assert!(world.has_component(entity, TAG_C));

    world.remove_component(entity, TAG_B).unwrap();
    assert!(world.has_component(entity, TAG_A));
    assert!(!world.has_component(entity, TAG_B));
    assert!(world.has_component(entity, TAG_C));
}

#[test]
fn add_same_component_to_entity() {
    let mut world = World::new();

    let entity = world.create_entity();
    world.add_component(entity, TAG_A, 5).unwrap();
    let r = world.add_component(entity, TAG_A, 9);

    assert_eq!(r, Err(EcsError::DuplicateComponent));
    assert_eq!(world.get_component(entity, TAG_A), Ok(5));
}

#[test]
fn add_same_entity_type() {
    let mut world = World::new();

    let entity = world.create_entity();
    world.add_component(entity, TAG_A, 1).unwrap();
    world.add_component(entity, TAG_B, 2).unwrap();
    world.add_component(entity, TAG_C, 3).unwrap();

    let entity2 = world.create_entity();
    world.add_component(entity2, TAG_A, 4).unwrap();
    world.add_component(entity2, TAG_B, 5).unwrap();
    world.add_component(entity2, TAG_C, 6).unwrap();

    let r1 = world.lookup(entity).unwrap();
    let r2 = world.lookup(entity2).unwrap();
    assert_eq!(r1.archetype, r2.archetype);
    assert_ne!(r1.row, r2.row);
}

#[test]
fn round_trip_add_remove() {
    let mut world = World::new();

    let e = world.create_entity();
    world.add_component(e, TAG_A, 5).unwrap();
    world.add_component(e, TAG_B, 7).unwrap();
    let sig_before = world.signature_of(e).unwrap();

    world.add_component(e, TAG_C, 9).unwrap();
    world.remove_component(e, TAG_C).unwrap();

    assert_eq!(world.signature_of(e).unwrap(), sig_before);
    assert_eq!(world.get_component(e, TAG_A), Ok(5));
    assert_eq!(world.get_component(e, TAG_B), Ok(7));
    assert!(!world.has_component(e, TAG_C));
}

#[test]
fn archetype_order_independent() {
    let mut world = World::new();

    let e1 = world.create_entity();
    world.add_component(e1, TAG_A, 1).unwrap();
    world.add_component(e1, TAG_B, 2).unwrap();

    let e2 = world.create_entity();
    world.add_component(e2, TAG_B, 3).unwrap();
    world.add_component(e2, TAG_A, 4).unwrap();

    let r1 = world.lookup(e1).unwrap();
    let r2 = world.lookup(e2).unwrap();
    assert_eq!(r1.archetype, r2.archetype);
}

#[test]
fn graph_inverse() {
    let mut world = World::new();
    let id_a = world.id_for_type(TAG_A);
    let id_b = world.id_for_type(TAG_B);

    let root = world.find_archetype(&Vec::new());
    let with_a = world.with(root, id_a);
    let back = world.without(with_a, id_a);
    assert_eq!(back, root);

    let with_ab = world.with(with_a, id_b);
    let back_a = world.without(with_ab, id_b);
    assert_eq!(back_a, with_a);
}

#[test]
fn index_consistency_after_mixed_ops() {
    let mut world = World::new();

    let e0 = world.create_entity();
    let e1 = world.create_entity();
    let e2 = world.create_entity();
    let e3 = world.create_entity();

    world.add_component(e0, TAG_A, 10).unwrap();
    world.add_component(e1, TAG_A, 11).unwrap();
    world.add_component(e1, TAG_B, 12).unwrap();
    world.add_component(e2, TAG_B, 13).unwrap();
    world.add_component(e3, TAG_A, 14).unwrap();
    world.remove_component(e1, TAG_A).unwrap();
    world.destroy_entity(e0).unwrap();
    world.add_component(e2, TAG_C, 15).unwrap();

    for e in [e1, e2, e3] {
        let rec = world.lookup(e).unwrap();
        assert_eq!(world.entity_at(rec.archetype, rec.row), Some(e));
    }
    assert_eq!(world.lookup(e0), Err(EcsError::EntityNotFound));
}

#[test]
fn swap_remove_keeps_survivors() {
    let mut world = World::new();

    let e0 = world.create_entity();
    let e1 = world.create_entity();
    let e2 = world.create_entity();
    for (e, v) in [(e0, 10), (e1, 20), (e2, 30)] {
        world.add_component(e, TAG_A, v).unwrap();
        world.add_component(e, TAG_B, v + 1).unwrap();
    }
    // All three share one archetype; e0 sits in a non-last row.
    let rec0 = world.lookup(e0).unwrap();
    let rec2 = world.lookup(e2).unwrap();
    assert_eq!(rec0.archetype, rec2.archetype);
    assert_eq!(rec0.row, 0);
    assert_eq!(rec2.row, 2);

    world.destroy_entity(e0).unwrap();

    assert_eq!(world.lookup(e0), Err(EcsError::EntityNotFound));
    for (e, v) in [(e1, 20), (e2, 30)] {
        let rec = world.lookup(e).unwrap();
        assert_eq!(world.entity_at(rec.archetype, rec.row), Some(e));
        assert_eq!(world.get_component(e, TAG_A), Ok(v));
        assert_eq!(world.get_component(e, TAG_B), Ok(v + 1));
    }
    // The last row was swapped into the destroyed entity's row.
    let rec2_after = world.lookup(e2).unwrap();
    assert_eq!(rec2_after.row, 0);
}

#[test]
fn query_superset() {
    let mut world = World::new();

    // Entities spread over the archetypes {A}, {A,B}, {A,B,C} and {B}.
    let only_a = world.create_entity();
    world.add_component(only_a, TAG_A, 1).unwrap();

    let a_b = world.create_entity();
    world.add_component(a_b, TAG_A, 2).unwrap();
    world.add_component(a_b, TAG_B, 3).unwrap();

    let a_b_c = world.create_entity();
    world.add_component(a_b_c, TAG_A, 4).unwrap();
    world.add_component(a_b_c, TAG_B, 5).unwrap();
    world.add_component(a_b_c, TAG_C, 6).unwrap();

    let only_b = world.create_entity();
    world.add_component(only_b, TAG_B, 7).unwrap();

    let res = world.query(&vec![TAG_A, TAG_B]);
    assert_eq!(res.len(), 2);
    assert!(contains(&res, a_b));
    assert!(contains(&res, a_b_c));

    let res_a = world.query(&vec![TAG_A]);
    assert_eq!(res_a.len(), 3);
    assert!(!contains(&res_a, only_b));

    // Duplicate tags in the request change nothing.
    let res_dup = world.query(&vec![TAG_A, TAG_A, TAG_B]);
    assert_eq!(res_dup.len(), 2);
}

#[test]
fn query_example() {
    let mut world = World::new();

    let e1 = world.create_entity();
    world.add_component(e1, TAG_A, 1).unwrap();
    world.add_component(e1, TAG_B, 2).unwrap();

    let e2 = world.create_entity();
    world.add_component(e2, TAG_B, 3).unwrap();
    world.add_component(e2, TAG_C, 4).unwrap();

    let res_b = world.query(&vec![TAG_B]);
    assert_eq!(res_b.len(), 2);
    assert!(contains(&res_b, e1));
    assert!(contains(&res_b, e2));

    let res_ac = world.query(&vec![TAG_A, TAG_C]);
    assert!(res_ac.is_empty());

    world.remove_component(e1, TAG_A).unwrap();
    assert!(!world.has_component(e1, TAG_A));

    // After the removal, e1's signature is exactly {B}.
    let id_b = world.id_for_type(TAG_B);
    assert_eq!(world.signature_of(e1).unwrap(), vec![id_b]);
    assert_eq!(world.query(&vec![TAG_B]).len(), 2);
    // e1 and e2 do not share an archetype: e2 still has TAG_C.
    let r1 = world.lookup(e1).unwrap();
    let r2 = world.lookup(e2).unwrap();
    assert_ne!(r1.archetype, r2.archetype);
}

#[test]
fn query_unregistered_tag_is_empty() {
    let mut world = World::new();
    let e = world.create_entity();
    world.add_component(e, TAG_A, 1).unwrap();

    assert!(world.query(&vec![TAG_D]).is_empty());
    assert!(world.query(&vec![TAG_A, TAG_D]).is_empty());
}

#[test]
fn error_entity_not_found() {
    let mut world = World::new();
    assert_eq!(world.add_component(0, TAG_A, 1), Err(EcsError::EntityNotFound));
    assert_eq!(world.remove_component(0, TAG_A), Err(EcsError::EntityNotFound));
    assert_eq!(world.destroy_entity(0), Err(EcsError::EntityNotFound));
    assert_eq!(world.get_component(0, TAG_A), Err(EcsError::EntityNotFound));
    assert_eq!(world.set_component(0, TAG_A, 1), Err(EcsError::EntityNotFound));
    assert!(world.lookup(0).is_err());

    let e = world.create_entity();
    world.destroy_entity(e).unwrap();
    assert_eq!(world.add_component(e, TAG_A, 1), Err(EcsError::EntityNotFound));
    assert!(!world.has_component(e, TAG_A));
}

#[test]
fn error_type_not_registered() {
    let mut world = World::new();
    let e = world.create_entity();
    world.add_component(e, TAG_A, 1).unwrap();
    assert_eq!(world.remove_component(e, TAG_D), Err(EcsError::TypeNotRegistered));
}

#[test]
fn error_component_not_present() {
    let mut world = World::new();
    let e = world.create_entity();
    let e2 = world.create_entity();
    world.add_component(e2, TAG_B, 9).unwrap();
    world.add_component(e, TAG_A, 1).unwrap();

    assert_eq!(world.remove_component(e, TAG_B), Err(EcsError::ComponentNotPresent));
    assert_eq!(world.get_component(e, TAG_B), Err(EcsError::ComponentNotPresent));
    assert_eq!(world.set_component(e, TAG_B, 2), Err(EcsError::ComponentNotPresent));
    assert_eq!(world.get_component(e, TAG_D), Err(EcsError::ComponentNotPresent));
}

#[test]
fn set_component_overwrites() {
    let mut world = World::new();
    let e = world.create_entity();
    world.add_component(e, TAG_A, 1).unwrap();
    world.add_component(e, TAG_B, 2).unwrap();

    world.set_component(e, TAG_A, 42).unwrap();
    assert_eq!(world.get_component(e, TAG_A), Ok(42));
    assert_eq!(world.get_component(e, TAG_B), Ok(2));
}

#[test]
fn registry_ids_are_stable() {
    let mut world = World::new();
    let id_a = world.id_for_type(TAG_A);
    let id_b = world.id_for_type(TAG_B);
    assert_ne!(id_a, id_b);
    assert_eq!(world.id_for_type(TAG_A), id_a);
    assert_eq!(world.id_for_type(TAG_B), id_b);

    // Adding components registers through the same registry.
    let e = world.create_entity();
    world.add_component(e, TAG_A, 1).unwrap();
    let sig = world.signature_of(e).unwrap();
    assert_eq!(sig, vec![id_a]);
}

#[test]
fn entity_ids_are_never_reused() {
    let mut world = World::new();
    let e0 = world.create_entity();
    world.destroy_entity(e0).unwrap();
    let e1 = world.create_entity();
    assert_ne!(e0, e1);
    assert_eq!(world.lookup(e0), Err(EcsError::EntityNotFound));
    assert!(world.lookup(e1).is_ok());
}
