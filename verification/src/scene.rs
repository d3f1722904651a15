//! The scene layer: entities owned by a scene, parent/child nesting, and
//! observables announcing structural changes.
//!
//! Ownership is a tree — a scene owns its entities, an entity owns its
//! children — so no reference cycles arise. Observers are registered by an
//! opaque handle, and triggering an observable appends the event to an
//! ordered log that subscribers poll after the tick: the engine is
//! single-writer, and callbacks live outside the verified core.

use vstd::prelude::*;

verus! {

/// A subject others can watch: registered observer handles, and the log of
/// every event triggered so far, oldest first.
pub struct Observable<T> {
    observers: Vec<u64>,
    events: Vec<T>,
}

impl<T> Observable<T> {
    /// The registered observer handles, in registration order.
    pub closed spec fn spec_observers(self) -> Seq<u64> {
        self.observers@
    }

    /// Every event triggered so far, oldest first.
    pub closed spec fn spec_events(self) -> Seq<T> {
        self.events@
    }

    /// An observable nobody watches and nothing has happened to.
    pub fn new() -> (o: Observable<T>)
        ensures
            o.spec_observers() == Seq::<u64>::empty(),
            o.spec_events() == Seq::<T>::empty(),
    {
        Observable { observers: Vec::new(), events: Vec::new() }
    }

    /// Subscribe an observer handle.
    pub fn register(&mut self, observer: u64)
        ensures
            final(self).spec_observers() == old(self).spec_observers().push(observer),
            final(self).spec_events() == old(self).spec_events(),
    {
        self.observers.push(observer);
    }

    /// Announce an event: append it to the log every subscriber reads.
    pub fn trigger(&mut self, data: T)
        ensures
            final(self).spec_events() == old(self).spec_events().push(data),
            final(self).spec_observers() == old(self).spec_observers(),
    {
        self.events.push(data);
    }

    /// The event log, for subscribers to poll.
    pub fn events(&self) -> (r: &Vec<T>)
        ensures
            r@ == self.spec_events(),
    {
        &self.events
    }

    /// How many observers are registered.
    pub fn observer_count(&self) -> (n: usize)
        ensures
            (n as int) == self.spec_observers().len(),
    {
        self.observers.len()
    }
}

/// One entity of the scene: its components (opaque values), the observables
/// announcing its changes, and the children it owns. An entity's id is its
/// index within the collection that owns it.
pub struct Entity {
    /// Index of this entity within its owning collection.
    pub id: usize,
    /// The attached component values, in attachment order.
    pub components: Vec<u64>,
    /// Fires once per component attached, with the component value.
    pub component_added: Observable<u64>,
    /// Fires once per component detached, with the component value.
    pub component_removed: Observable<u64>,
    /// Fires once per child created, with the child's index.
    pub child_added: Observable<usize>,
    /// Fires once per child removed, with the child's index.
    pub child_removed: Observable<usize>,
    /// The children this entity owns.
    pub children: Vec<Entity>,
}

/// A fresh entity with the given id and nothing attached.
fn new_entity(id: usize) -> (e: Entity)
    ensures
        e.id == id,
        e.components@ == Seq::<u64>::empty(),
        e.children@ == Seq::<Entity>::empty(),
        e.component_added.spec_events() == Seq::<u64>::empty(),
        e.component_removed.spec_events() == Seq::<u64>::empty(),
        e.child_added.spec_events() == Seq::<usize>::empty(),
        e.child_removed.spec_events() == Seq::<usize>::empty(),
{
    Entity {
        id,
        components: Vec::new(),
        component_added: Observable::new(),
        component_removed: Observable::new(),
        child_added: Observable::new(),
        child_removed: Observable::new(),
        children: Vec::new(),
    }
}

impl Entity {
    /// Attach a component value and announce it on `component_added`.
    pub fn add_component(&mut self, component: u64)
        ensures
            final(self).components@ == old(self).components@.push(component),
            final(self).component_added.spec_events() == old(
                self,
            ).component_added.spec_events().push(component),
            final(self).id == old(self).id,
            final(self).children@ == old(self).children@,
            final(self).component_removed == old(self).component_removed,
            final(self).child_added == old(self).child_added,
            final(self).child_removed == old(self).child_removed,
    {
        self.components.push(component);
        self.component_added.trigger(component);
    }

    /// Create a child entity, announce it on `child_added`, and return its
    /// index among this entity's children.
    pub fn create_child(&mut self) -> (c: usize)
        ensures
            (c as int) == old(self).children@.len(),
            final(self).children@.len() == old(self).children@.len() + 1,
            final(self).children@[c as int].id == c,
            final(self).children@[c as int].components@ == Seq::<u64>::empty(),
            final(self).children@[c as int].children@ == Seq::<Entity>::empty(),
            forall|j: int|
                0 <= j < old(self).children@.len() ==> final(self).children@[j] == old(
                    self,
                ).children@[j],
            final(self).child_added.spec_events() == old(self).child_added.spec_events().push(c),
            final(self).id == old(self).id,
            final(self).components@ == old(self).components@,
            final(self).component_added == old(self).component_added,
            final(self).component_removed == old(self).component_removed,
            final(self).child_removed == old(self).child_removed,
    {
        let c = self.children.len();
        let child = new_entity(c);
        self.children.push(child);
        self.child_added.trigger(c);
        c
    }
}

/// A system: the component types it runs over. Scheduling and the update
/// callback live in the host layer.
pub struct System {
    /// The component-type tags the system asks for.
    pub types: Vec<u64>,
}

/// A scene: the entities it owns, observables announcing entity lifecycle,
/// and the registered systems.
pub struct Scene {
    /// An identifier the host layer may assign.
    pub id: usize,
    /// The entities of the scene; an entity's id is its index here.
    pub entities: Vec<Entity>,
    /// Fires once per entity created, with the entity's index.
    pub entity_added: Observable<usize>,
    /// Fires once per entity removed, with the entity's index.
    pub entity_removed: Observable<usize>,
    /// The registered systems, in registration order.
    pub systems: Vec<System>,
}

impl Scene {
    /// An empty scene.
    pub fn new() -> (s: Scene)
        ensures
            s.id == 0,
            s.entities@ == Seq::<Entity>::empty(),
            s.entity_added.spec_events() == Seq::<usize>::empty(),
            s.entity_removed.spec_events() == Seq::<usize>::empty(),
            s.systems@ == Seq::<System>::empty(),
    {
        Scene {
            id: 0,
            entities: Vec::new(),
            entity_added: Observable::new(),
            entity_removed: Observable::new(),
            systems: Vec::new(),
        }
    }
}

/// Create a fresh entity in the scene, announce it on `entity_added`, and
/// return its index.
pub fn create_entity(scene: &mut Scene) -> (e: usize)
    ensures
        (e as int) == old(scene).entities@.len(),
        final(scene).entities@.len() == old(scene).entities@.len() + 1,
        final(scene).entities@[e as int].id == e,
        final(scene).entities@[e as int].components@ == Seq::<u64>::empty(),
        final(scene).entities@[e as int].children@ == Seq::<Entity>::empty(),
        forall|j: int|
            0 <= j < old(scene).entities@.len() ==> final(scene).entities@[j] == old(
                scene,
            ).entities@[j],
        final(scene).entity_added.spec_events() == old(scene).entity_added.spec_events().push(e),
        final(scene).id == old(scene).id,
        final(scene).entity_removed == old(scene).entity_removed,
        final(scene).systems@ == old(scene).systems@,
{
    let e = scene.entities.len();
    let entity = new_entity(e);
    scene.entities.push(entity);
    scene.entity_added.trigger(e);
    e
}

/// Register a system with the scene.
pub fn add_system(scene: &mut Scene, system: System)
    ensures
        final(scene).systems@ == old(scene).systems@.push(system),
        final(scene).id == old(scene).id,
        final(scene).entities@ == old(scene).entities@,
        final(scene).entity_added == old(scene).entity_added,
        final(scene).entity_removed == old(scene).entity_removed,
{
    scene.systems.push(system);
}

} // verus!
