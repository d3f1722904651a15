use std::cell::RefCell;

use lagom_ecs::scene::create_entity;
use lagom_ecs::scene::add_system;
use lagom_ecs::scene::Scene;
use lagom_ecs::scene::System;

#[test]
fn create_entity_test() {
    let mut scene = Scene::new();

    let e = create_entity(&mut scene);

    scene.entities[e].component_added.register(7);

    let e = create_entity(&mut scene);
    let _ = e;

    for _ in scene.entities[0].component_added.events() {
        println!(":HELLO");
    }
}

#[test]
fn test_child() {
    let mut scene = Scene::new();

    let e = create_entity(&mut scene);

    let child = scene.entities[e].create_child();
    let _ = child;
}

struct B<'a> {
    parent: Option<RefCell<&'a B<'a>>>,
}

impl<'a> B<'a> {
    fn create_one(&'a self) -> Self {
        Self { parent: Some(RefCell::new(&self)) }
    }
}

#[test]
fn test_inh() {
    let b = B { parent: None };
    b.create_one();
    b.create_one();
    let c = B { parent: Some(RefCell::new(&b)) };
    let _ = c;
}

#[test]
fn component_added_is_logged() {
    let mut scene = Scene::new();
    let e = create_entity(&mut scene);

    scene.entities[e].add_component(41);
    scene.entities[e].add_component(42);

    assert_eq!(scene.entities[e].components, vec![41, 42]);
    assert_eq!(scene.entities[e].component_added.events().clone(), vec![41, 42]);
}

#[test]
fn entity_added_is_logged() {
    let mut scene = Scene::new();
    let e0 = create_entity(&mut scene);
    let e1 = create_entity(&mut scene);

    assert_eq!(e0, 0);
    assert_eq!(e1, 1);
    assert_eq!(scene.entities.len(), 2);
    assert_eq!(scene.entity_added.events().clone(), vec![0, 1]);
    assert_eq!(scene.entities[e1].id, e1);
}

#[test]
fn child_ids_follow_sibling_order() {
    let mut scene = Scene::new();
    let e = create_entity(&mut scene);

    let c0 = scene.entities[e].create_child();
    let c1 = scene.entities[e].create_child();

    assert_eq!(c0, 0);
    assert_eq!(c1, 1);
    assert_eq!(scene.entities[e].children.len(), 2);
    assert_eq!(scene.entities[e].children[c1].id, c1);
    assert_eq!(scene.entities[e].child_added.events().clone(), vec![0, 1]);
}

#[test]
fn observers_are_counted() {
    let mut scene = Scene::new();
    let e = create_entity(&mut scene);

    assert_eq!(scene.entities[e].component_added.observer_count(), 0);
    scene.entities[e].component_added.register(1);
    scene.entities[e].component_added.register(2);
    assert_eq!(scene.entities[e].component_added.observer_count(), 2);
}

#[test]
fn systems_are_registered_in_order() {
    let mut scene = Scene::new();
    add_system(&mut scene, System { types: vec![1, 2] });
    add_system(&mut scene, System { types: vec![3] });

    assert_eq!(scene.systems.len(), 2);
    assert_eq!(scene.systems[0].types, vec![1, 2]);
    assert_eq!(scene.systems[1].types, vec![3]);
}
