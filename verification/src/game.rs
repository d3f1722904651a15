//! A flat component store: the simplest engine shape, kept alongside the
//! archetype engine in [`crate::world`].
//!
//! A [`Game`] holds every attached component in one list of
//! (entity, type tag, value) slices and answers queries by scanning it.
//! Component type identity and component payloads are plain machine words
//! here: the host layer derives a tag from each runtime type it attaches.

use vstd::prelude::*;

verus! {

/// One attached component: owning entity, component-type tag, value.
pub struct ComponentSlice(pub usize, pub u64, pub u64);

/// A query filter asking for a component of one type.
pub struct HasComp {
    type_id: u64,
}

/// Whether a slice belongs to `entity` and carries type `tag`.
pub open spec fn slice_matches(s: ComponentSlice, entity: usize, tag: u64) -> bool {
    s.0 == entity && s.1 == tag
}

impl HasComp {
    /// The component-type tag this filter asks for.
    pub closed spec fn spec_tid(self) -> u64 {
        self.type_id
    }

    /// A filter matching components of type `type_id`.
    pub fn new(type_id: u64) -> (f: HasComp)
        ensures
            f.spec_tid() == type_id,
    {
        HasComp { type_id }
    }

    /// Whether this filter matches the given component slice.
    pub fn matches(&self, slice: &ComponentSlice) -> (r: bool)
        ensures
            r == (slice.1 == self.spec_tid()),
    {
        self.type_id == slice.1
    }
}

/// The flat store: a bag of component slices and an entity counter.
pub struct Game {
    components: Vec<ComponentSlice>,
    entity_count: usize,
}

/// Something that knows how to populate a fresh entity: the store calls it
/// to create the entity and attach its components. Implementations only ever
/// add to the store.
pub trait EntityCreator {
    /// Create one entity in `game`, attach its components, return its id.
    fn create_entity(&self, game: &mut Game) -> (e: usize)
        requires
            old(game).n_entities() < usize::MAX as int,
        ensures
            final(game).n_entities() >= old(game).n_entities(),
            old(game).comps().is_prefix_of(final(game).comps()),
    ;
}

impl Game {
    /// Every attached component slice, in attachment order.
    pub closed spec fn comps(self) -> Seq<ComponentSlice> {
        self.components@
    }

    /// How many entity ids have been handed out.
    pub closed spec fn n_entities(self) -> int {
        self.entity_count as int
    }

    /// An empty store.
    pub fn new() -> (g: Game)
        ensures
            g.comps() == Seq::<ComponentSlice>::empty(),
            g.n_entities() == 0,
    {
        Game { components: Vec::new(), entity_count: 0 }
    }

    /// The next unused entity id.
    pub fn create_entity(&mut self) -> (e: usize)
        requires
            old(self).n_entities() < usize::MAX as int,
        ensures
            (e as int) == old(self).n_entities(),
            final(self).n_entities() == old(self).n_entities() + 1,
            final(self).comps() == old(self).comps(),
    {
        let entity_id = self.entity_count;
        self.entity_count = self.entity_count + 1;
        entity_id
    }

    /// Let `creator` build one entity in this store.
    pub fn add_entity<T: EntityCreator>(&mut self, creator: &T)
        requires
            old(self).n_entities() < usize::MAX as int,
        ensures
            final(self).n_entities() >= old(self).n_entities(),
            old(self).comps().is_prefix_of(final(self).comps()),
    {
        creator.create_entity(self);
    }

    /// Attach a component of type `type_tag` with value `value` to `entity`.
    /// The flat store accepts several components of one type on the same
    /// entity; readers see the first.
    pub fn add_component(&mut self, entity: usize, type_tag: u64, value: u64)
        ensures
            final(self).comps() == old(self).comps().push(
                ComponentSlice(entity, type_tag, value),
            ),
            final(self).n_entities() == old(self).n_entities(),
    {
        self.components.push(ComponentSlice(entity, type_tag, value));
    }

    /// The value of the first component of type `type_tag` on `entity`, if
    /// any.
    pub fn get_component(&self, entity: usize, type_tag: u64) -> (r: Option<u64>)
        ensures
            match r {
                Some(v) => exists|i: int|
                    0 <= i < self.comps().len() && slice_matches(
                        #[trigger] self.comps()[i],
                        entity,
                        type_tag,
                    ) && self.comps()[i].2 == v && (forall|j: int|
                        0 <= j < i ==> !slice_matches(#[trigger] self.comps()[j], entity, type_tag)),
                None => forall|i: int|
                    0 <= i < self.comps().len() ==> !slice_matches(
                        #[trigger] self.comps()[i],
                        entity,
                        type_tag,
                    ),
            },
    {
        let mut i: usize = 0;
        while i < self.components.len()
            invariant
                i <= self.comps().len(),
                forall|j: int|
                    0 <= j < i ==> !slice_matches(#[trigger] self.comps()[j], entity, type_tag),
            decreases self.comps().len() - i,
        {
            let slice = &self.components[i];
            if slice.0 == entity && slice.1 == type_tag {
                return Some(slice.2);
            }
            i = i + 1;
        }
        None
    }

    /// Whether `entity` has a component the filter `f` asks for.
    pub open spec fn filter_matched(self, entity: usize, f: HasComp) -> bool {
        exists|i: int|
            0 <= i < self.comps().len() && slice_matches(
                #[trigger] self.comps()[i],
                entity,
                f.spec_tid(),
            )
    }

    /// Whether every filter matches some component of `entity`.
    pub open spec fn entity_matches(self, entity: usize, filters: Seq<HasComp>) -> bool {
        forall|g: int| 0 <= g < filters.len() ==> self.filter_matched(entity, #[trigger] filters[g])
    }

    /// Whether `entity` has at least one component the filter asks for.
    fn has_component_of(&self, entity: usize, f: &HasComp) -> (r: bool)
        ensures
            r == self.filter_matched(entity, *f),
    {
        let mut i: usize = 0;
        while i < self.components.len()
            invariant
                i <= self.comps().len(),
                forall|j: int|
                    0 <= j < i ==> !slice_matches(#[trigger] self.comps()[j], entity, f.spec_tid()),
            decreases self.comps().len() - i,
        {
            let slice = &self.components[i];
            if slice.0 == entity && slice.1 == f.type_id {
                proof {
                    assert(slice_matches(self.comps()[i as int], entity, f.spec_tid()));
                }
                return true;
            }
            i = i + 1;
        }
        false
    }

    /// All entity ids, in ascending order, for which every filter matches at
    /// least one component. Each filter must match on its own; one component
    /// can satisfy at most one filter type.
    pub fn get_entities_with_filter(&mut self, filters: &Vec<HasComp>) -> (res: Vec<usize>)
        ensures
            *final(self) == *old(self),
            forall|e: usize|
                res@.contains(e) <==> (e as int) < old(self).n_entities() && old(
                    self,
                ).entity_matches(e, filters@),
            forall|i: int, j: int| 0 <= i < j < res@.len() ==> res@[i] < res@[j],
    {
        let mut res: Vec<usize> = Vec::new();
        let mut entity_id: usize = 0;
        while entity_id < self.entity_count
            invariant
                *self == *old(self),
                entity_id <= self.entity_count,
                forall|e: usize|
                    res@.contains(e) <==> (e as int) < entity_id as int && self.entity_matches(
                        e,
                        filters@,
                    ),
                forall|i: int, j: int| 0 <= i < j < res@.len() ==> res@[i] < res@[j],
                forall|i: int| 0 <= i < res@.len() ==> (res@[i] as int) < entity_id as int,
            decreases self.entity_count - entity_id,
        {
            let mut entity_match = true;
            let mut f: usize = 0;
            while f < filters.len() && entity_match
                invariant
                    *self == *old(self),
                    f <= filters@.len(),
                    entity_match ==> (forall|g: int|
                        0 <= g < f ==> self.filter_matched(entity_id, #[trigger] filters@[g])),
                    !entity_match ==> (exists|g: int|
                        0 <= g < filters@.len() && !self.filter_matched(
                            entity_id,
                            #[trigger] filters@[g],
                        )),
                decreases filters@.len() - f,
            {
                if !self.has_component_of(entity_id, &filters[f]) {
                    entity_match = false;
                }
                f = f + 1;
            }
            proof {
                if entity_match {
                    assert(f == filters@.len());
                    assert(self.entity_matches(entity_id, filters@));
                } else {
                    assert(!self.entity_matches(entity_id, filters@));
                }
            }
            if entity_match {
                let ghost res0 = res@;
                res.push(entity_id);
                proof {
                    assert forall|e: usize| res@.contains(e) <==> (e as int) < entity_id as int + 1
                        && self.entity_matches(e, filters@) by {
                        if res@.contains(e) {
                            let i = choose|i: int| 0 <= i < res@.len() && res@[i] == e;
                            if i < res0.len() {
                                assert(res0[i] == e);
                                assert(res0.contains(e));
                            }
                        }
                        if (e as int) < entity_id as int + 1 && self.entity_matches(e, filters@) {
                            if e == entity_id {
                                assert(res@[res@.len() - 1] == e);
                            } else {
                                assert(res0.contains(e));
                                let i = choose|i: int| 0 <= i < res0.len() && res0[i] == e;
                                assert(res@[i] == e);
                            }
                        }
                    }
                }
            }
            entity_id = entity_id + 1;
        }
        res
    }
}

/// A creator that builds a text-box entity: one text-renderer component and
/// one text-value component.
pub struct TextBox {}

/// The component-type tag of the text-renderer component.
pub const TEXT_RENDERER_TAG: u64 = 1;

/// The component-type tag of the text-value component.
pub const TEXT_VALUE_TAG: u64 = 2;

impl EntityCreator for TextBox {
    fn create_entity(&self, game: &mut Game) -> (e: usize) {
        let entity_id = game.create_entity();
        game.add_component(entity_id, TEXT_RENDERER_TAG, 0);
        game.add_component(entity_id, TEXT_VALUE_TAG, 0);
        proof {
            assert(old(game).comps().is_prefix_of(game.comps())) by {
                assert(old(game).comps() =~= game.comps().subrange(
                    0,
                    old(game).comps().len() as int,
                ));
            }
        }
        entity_id
    }
}

} // verus!
