//! The archetype engine: type registry, archetype graph, column storage,
//! entity index and query engine.
//!
//! A [`World`] owns an arena of [`Archetype`] nodes. Each archetype is
//! labelled by a strictly sorted signature of component-type ids and stores,
//! for every entity carrying exactly those component types, one value per
//! type in densely packed, row-aligned columns. An entity index maps each
//! live entity to the archetype and row holding its data, and a registry maps
//! caller-supplied type tags to dense component-type ids.
//!
//! All structural operations preserve the well-formedness predicate
//! [`World::wf`]; the abstract effect of each operation is stated over the
//! per-entity component map [`World::id_comps`]. A desynchronization of
//! index and storage — a record pointing at a row that does not hold its
//! entity — is not a reportable error but an impossibility: `wf` rules it
//! out, and every operation is verified to maintain `wf`.

use vstd::prelude::*;

use crate::EcsError;
use crate::sig::lemma_sig_index;
use crate::sig::lemma_sig_index_of;
use crate::sig::lemma_sorted_equal;
use crate::sig::lemma_sorted_index_unique;
use crate::sig::lemma_sorted_insert;
use crate::sig::lemma_sorted_push;
use crate::sig::lemma_sorted_remove;
use crate::sig::sig_contains;
use crate::sig::sig_find;
use crate::sig::sig_index;
use crate::sig::sig_minus;
use crate::sig::sig_plus;
use crate::sig::sig_position;
use crate::sig::sig_superset;
use crate::sig::sorted;

verus! {

/// Where an entity's data lives right now: the archetype holding its row,
/// and the row index, valid for every column of that archetype.
#[derive(Clone, Copy, Debug, PartialEq, Eq, Structural)]
pub struct Record {
    /// Handle of the archetype holding the entity's row.
    pub archetype: usize,
    /// Row index into every column of that archetype.
    pub row: usize,
}

/// One node of the archetype graph: a signature, the add/remove edges to
/// neighbouring archetypes, and the column storage for the entities that
/// currently carry exactly this signature.
pub struct Archetype {
    /// Strictly sorted component-type ids: which component types a row holds.
    sig: Vec<usize>,
    /// Edges to the archetype reached by adding one component type:
    /// pairs of (component-type id, archetype handle).
    add_edges: Vec<(usize, usize)>,
    /// Edges to the archetype reached by removing one component type.
    remove_edges: Vec<(usize, usize)>,
    /// The owning entity of each row.
    entities: Vec<usize>,
    /// One densely packed column per signature entry; `columns[k][r]` is the
    /// value of component type `sig[k]` for the entity at row `r`.
    columns: Vec<Vec<u64>>,
}

impl Archetype {
    /// Local well-formedness: sorted signature, ids within the registry,
    /// and all columns in row lock-step.
    pub closed spec fn wf(self, n_types: int) -> bool {
        &&& sorted(self.sig@)
        &&& forall|k: int| 0 <= k < self.sig@.len() ==> self.sig@[k] < n_types
        &&& self.columns@.len() == self.sig@.len()
        &&& forall|k: int|
            0 <= k < self.columns@.len() ==> (#[trigger] self.columns@[k])@.len()
                == self.entities@.len()
    }
}

/// The storage engine. See the module documentation for the data model.
pub struct World {
    /// `registry[id]` is the type tag assigned dense id `id`; append-only.
    registry: Vec<u64>,
    /// Arena of archetype nodes; handle 0 is the root (empty signature).
    archetypes: Vec<Archetype>,
    /// `index[e]` is the record of entity `e`, or `None` once destroyed.
    /// Entity ids are allocated densely and never reused.
    index: Vec<Option<Record>>,
}

impl World {
    /// The registry: the tag assigned to each dense component-type id.
    pub closed spec fn reg(self) -> Seq<u64> {
        self.registry@
    }

    /// How many component types have been registered.
    pub open spec fn num_types(self) -> int {
        self.reg().len() as int
    }

    /// Whether a tag has been assigned a component-type id.
    pub open spec fn registered(self, tag: u64) -> bool {
        self.reg().contains(tag)
    }

    /// The dense component-type id of a registered tag.
    pub closed spec fn tag_id(self, tag: u64) -> usize {
        tag_index(self.registry@, tag)
    }

    /// How many archetype nodes the arena holds.
    pub closed spec fn n_arch(self) -> int {
        self.archetypes@.len() as int
    }

    /// The signature of archetype `a`.
    pub closed spec fn arch_sig(self, a: int) -> Seq<usize> {
        self.archetypes@[a].sig@
    }

    /// The entity-id column of archetype `a`.
    pub closed spec fn arch_entities(self, a: int) -> Seq<usize> {
        self.archetypes@[a].entities@
    }

    /// How many entity ids have ever been created.
    pub closed spec fn num_entities(self) -> int {
        self.index@.len() as int
    }

    /// Whether entity `e` has been created and not yet destroyed.
    pub closed spec fn live(self, e: usize) -> bool {
        (e as int) < self.index@.len() && self.index@[e as int] is Some
    }

    /// The record of a live entity.
    pub closed spec fn record_of(self, e: usize) -> Record {
        self.index@[e as int].unwrap()
    }

    /// The signature of a live entity's current archetype.
    pub closed spec fn sig_of(self, e: usize) -> Seq<usize> {
        self.archetypes@[self.record_of(e).archetype as int].sig@
    }

    /// The stored value of component type `id` for entity `e`.
    pub closed spec fn val_of(self, e: usize, id: usize) -> u64 {
        let r = self.record_of(e);
        let arch = self.archetypes@[r.archetype as int];
        arch.columns@[sig_index(arch.sig@, id)]@[r.row as int]
    }

    /// The component map of a live entity: one value per component-type id
    /// in its signature. This is the abstract state every operation's
    /// contract speaks of.
    pub closed spec fn id_comps(self, e: usize) -> Map<usize, u64> {
        Map::new(|id: usize| self.sig_of(e).contains(id), |id: usize| self.val_of(e, id))
    }

    /// Whether entity `e` currently has a component of the type named `tag`.
    pub open spec fn spec_has(self, e: usize, tag: u64) -> bool {
        self.live(e) && self.registered(tag) && self.sig_of(e).contains(self.tag_id(tag))
    }

    /// One add edge is consistent: its target exists, the key is new to the
    /// source signature, and the target signature is the source's plus the key.
    pub closed spec fn add_edge_ok(self, a: int, k: int) -> bool {
        let t = self.archetypes@[a].add_edges@[k].0;
        let b = self.archetypes@[a].add_edges@[k].1;
        &&& (b as int) < self.archetypes@.len()
        &&& !self.archetypes@[a].sig@.contains(t)
        &&& sig_plus(self.archetypes@[a].sig@, self.archetypes@[b as int].sig@, t)
    }

    /// One remove edge is consistent: the key is in the source signature and
    /// the target signature is the source's minus the key.
    pub closed spec fn remove_edge_ok(self, a: int, k: int) -> bool {
        let t = self.archetypes@[a].remove_edges@[k].0;
        let b = self.archetypes@[a].remove_edges@[k].1;
        &&& (b as int) < self.archetypes@.len()
        &&& self.archetypes@[a].sig@.contains(t)
        &&& sig_minus(self.archetypes@[a].sig@, self.archetypes@[b as int].sig@, t)
    }

    /// Every non-root archetype was created by following an add edge for the
    /// largest id of its signature: the sorted walk from the root that
    /// created it installed that edge. This is what keeps signatures unique
    /// when nodes are created lazily.
    pub closed spec fn canonical_edge(self, b: int) -> bool {
        exists|a: int, k: int|
            0 <= a < self.archetypes@.len() && 0 <= k < self.archetypes@[a].add_edges@.len()
                && #[trigger] self.archetypes@[a].add_edges@[k] == (
            self.archetypes@[b].sig@.last(),
            b as usize,
            )
    }

    /// The record of entity slot `e` points at a valid row owning `e`.
    pub closed spec fn record_ok(self, e: int) -> bool {
        let r = self.index@[e].unwrap();
        &&& (r.archetype as int) < self.archetypes@.len()
        &&& (r.row as int) < self.archetypes@[r.archetype as int].entities@.len()
        &&& self.archetypes@[r.archetype as int].entities@[r.row as int] == e as usize
    }

    /// The entity owning row `row` of archetype `a` is indexed right back at
    /// this archetype and row.
    pub closed spec fn row_ok(self, a: int, row: int) -> bool {
        let e = self.archetypes@[a].entities@[row];
        &&& (e as int) < self.index@.len()
        &&& self.index@[e as int] == Some(Record { archetype: a as usize, row: row as usize })
    }

    /// Well-formedness: the single source of truth relating registry,
    /// archetype arena and entity index. Every public operation preserves it.
    pub closed spec fn wf(self) -> bool {
        &&& 1 <= self.archetypes@.len()
        &&& self.archetypes@[0].sig@ == Seq::<usize>::empty()
        &&& forall|a: int|
            0 <= a < self.archetypes@.len() ==> (#[trigger] self.archetypes@[a]).wf(
                self.registry@.len() as int,
            )
        &&& forall|a1: int, a2: int|
            0 <= a1 < self.archetypes@.len() && 0 <= a2 < self.archetypes@.len() && a1 != a2
                ==> #[trigger] self.archetypes@[a1].sig@ != #[trigger] self.archetypes@[a2].sig@
        &&& forall|a: int, k: int|
            0 <= a < self.archetypes@.len() && 0 <= k < self.archetypes@[a].add_edges@.len()
                ==> #[trigger] self.add_edge_ok(a, k)
        &&& forall|a: int, k: int|
            0 <= a < self.archetypes@.len() && 0 <= k < self.archetypes@[a].remove_edges@.len()
                ==> #[trigger] self.remove_edge_ok(a, k)
        &&& forall|b: int|
            0 <= b < self.archetypes@.len() && self.archetypes@[b].sig@.len() > 0
                ==> #[trigger] self.canonical_edge(b)
        &&& forall|e: int|
            0 <= e < self.index@.len() && self.index@[e] is Some ==> #[trigger] self.record_ok(e)
        &&& forall|a: int, row: int|
            0 <= a < self.archetypes@.len() && 0 <= row
                < self.archetypes@[a].entities@.len() ==> #[trigger] self.row_ok(a, row)
        &&& forall|i: int, j: int|
            0 <= i < j < self.registry@.len() ==> self.registry@[i] != self.registry@[j]
    }

    /// A registered tag's id is in range and maps back to the tag.
    pub proof fn lemma_tag_id(self, tag: u64)
        requires
            self.wf(),
            self.registered(tag),
        ensures
            (self.tag_id(tag) as int) < self.num_types(),
            self.reg()[self.tag_id(tag) as int] == tag,
    {
        let i = choose|i: int| 0 <= i < self.registry@.len() && self.registry@[i] == tag;
        assert(self.registry.len() == self.registry@.len());
        assert(i <= usize::MAX as int);
        assert((i as usize as int) < self.registry@.len() && self.registry@[i as usize as int]
            == tag);
    }

    /// Registered tags and dense ids correspond one to one.
    pub proof fn lemma_tag_id_inj(self, i: int, tag: u64)
        requires
            self.wf(),
            0 <= i < self.num_types(),
            self.reg()[i] == tag,
        ensures
            self.registered(tag),
            (self.tag_id(tag) as int) == i,
    {
        assert(self.reg().contains(tag));
        self.lemma_tag_id(tag);
        let j = self.tag_id(tag) as int;
        if i != j {
            assert(self.registry@[i] != self.registry@[j] || self.registry@[j]
                != self.registry@[i]);
        }
    }

    /// A fresh world: no types, no entities, and the root archetype.
    pub fn new() -> (w: World)
        ensures
            w.wf(),
            w.num_entities() == 0,
            w.num_types() == 0,
            w.n_arch() == 1,
            w.arch_sig(0) == Seq::<usize>::empty(),
    {
        let root = Archetype {
            sig: Vec::new(),
            add_edges: Vec::new(),
            remove_edges: Vec::new(),
            entities: Vec::new(),
            columns: Vec::new(),
        };
        let mut archetypes: Vec<Archetype> = Vec::new();
        archetypes.push(root);
        let w = World { registry: Vec::new(), archetypes, index: Vec::new() };
        proof {
            assert(w.archetypes@[0].sig@ =~= Seq::<usize>::empty());
        }
        w
    }

    /// The dense component-type id for `tag`: the id already assigned to it,
    /// or the next unused id, recorded for the rest of the world's lifetime.
    /// Never fails; the registry only ever grows.
    pub fn id_for_type(&mut self, tag: u64) -> (id: usize)
        requires
            old(self).wf(),
        ensures
            final(self).wf(),
            old(self).registered(tag) ==> *final(self) == *old(self),
            old(self).registered(tag) ==> final(self).reg() == old(self).reg(),
            !old(self).registered(tag) ==> final(self).reg() == old(self).reg().push(tag) && (id
                as int) == old(self).num_types(),
            final(self).registered(tag),
            id == final(self).tag_id(tag),
            (id as int) < final(self).num_types(),
            forall|t2: u64|
                old(self).registered(t2) ==> final(self).registered(t2) && final(self).tag_id(t2)
                    == old(self).tag_id(t2),
            final(self).n_arch() == old(self).n_arch(),
            forall|a: int|
                0 <= a < old(self).n_arch() ==> final(self).arch_sig(a) == old(self).arch_sig(a)
                    && final(self).arch_entities(a) == old(self).arch_entities(a),
            final(self).num_entities() == old(self).num_entities(),
            forall|e: usize| final(self).live(e) == old(self).live(e),
            forall|e: usize|
                old(self).live(e) ==> final(self).id_comps(e) == old(self).id_comps(e)
                    && final(self).sig_of(e) == old(self).sig_of(e)
                    && final(self).record_of(e) == old(self).record_of(e),
    {
        match find_u64(&self.registry, tag) {
            Some(i) => {
                proof {
                    assert(self.reg().contains(tag));
                    self.lemma_tag_id_inj(i as int, tag);
                }
                i
            },
            None => {
                let id = self.registry.len();
                self.registry.push(tag);
                proof {
                    assert(!old(self).reg().contains(tag));
                    assert forall|a: int|
                        0 <= a < self.archetypes@.len() implies (
                    #[trigger] self.archetypes@[a]).wf(self.registry@.len() as int) by {
                        assert(old(self).archetypes@[a].wf(old(self).registry@.len() as int));
                        assert(self.archetypes@[a] == old(self).archetypes@[a]);
                    }
                    assert forall|a: int, k: int|
                        0 <= a < self.archetypes@.len() && 0 <= k
                            < self.archetypes@[a].add_edges@.len() implies #[trigger] self
                        .add_edge_ok(a, k) by {
                        assert(old(self).add_edge_ok(a, k));
                    }
                    assert forall|a: int, k: int|
                        0 <= a < self.archetypes@.len() && 0 <= k
                            < self.archetypes@[a].remove_edges@.len() implies #[trigger] self
                        .remove_edge_ok(a, k) by {
                        assert(old(self).remove_edge_ok(a, k));
                    }
                    assert forall|b: int|
                        0 <= b < self.archetypes@.len() && self.archetypes@[b].sig@.len()
                            > 0 implies #[trigger] self.canonical_edge(b) by {
                        assert(old(self).canonical_edge(b));
                        let (a, k) = choose|a: int, k: int|
                            0 <= a < old(self).archetypes@.len() && 0 <= k < old(
                                self,
                            ).archetypes@[a].add_edges@.len() && #[trigger] old(
                                self,
                            ).archetypes@[a].add_edges@[k] == (
                                old(self).archetypes@[b].sig@.last(),
                                b as usize,
                            );
                        assert(self.archetypes@[a].add_edges@[k] == (
                            self.archetypes@[b].sig@.last(),
                            b as usize,
                        ));
                    }
                    assert forall|e: int|
                        0 <= e < self.index@.len() && self.index@[e] is Some implies #[trigger] self
                        .record_ok(e) by {
                        assert(old(self).record_ok(e));
                    }
                    assert forall|a: int, row: int|
                        0 <= a < self.archetypes@.len() && 0 <= row
                            < self.archetypes@[a].entities@.len() implies #[trigger] self.row_ok(
                        a,
                        row,
                    ) by {
                        assert(old(self).row_ok(a, row));
                    }
                    assert(self.reg()[id as int] == tag);
                    self.lemma_tag_id_inj(id as int, tag);
                    assert forall|t2: u64| old(self).registered(t2) implies final(self).registered(
                        t2,
                    ) && final(self).tag_id(t2) == old(self).tag_id(t2) by {
                        let i = choose|i: int|
                            0 <= i < old(self).registry@.len() && old(self).registry@[i] == t2;
                        assert(self.registry@[i] == t2);
                        assert(self.reg().contains(t2));
                        self.lemma_tag_id_inj(i, t2);
                        old(self).lemma_tag_id_inj(i, t2);
                    }
                    assert forall|e: usize| old(self).live(e) implies self.id_comps(e) == old(
                        self,
                    ).id_comps(e) && self.sig_of(e) == old(self).sig_of(e) && self.record_of(e)
                        == old(self).record_of(e) by {
                        assert(self.id_comps(e) =~= old(self).id_comps(e));
                    }
                }
                id
            },
        }
    }

    /// Graph operations may add archetype nodes and edges but never touch
    /// the registry, the entity index, or any existing row data.
    pub closed spec fn graph_extended(pre: World, post: World) -> bool {
        &&& post.registry@ == pre.registry@
        &&& post.index@ == pre.index@
        &&& pre.archetypes@.len() <= post.archetypes@.len()
        &&& forall|a: int|
            0 <= a < pre.archetypes@.len() ==> (#[trigger] post.archetypes@[a]).sig@
                == pre.archetypes@[a].sig@ && post.archetypes@[a].entities@
                == pre.archetypes@[a].entities@ && post.archetypes@[a].columns@
                == pre.archetypes@[a].columns@
    }

    /// Growing the graph is transitive.
    pub proof fn lemma_graph_extended_trans(w1: World, w2: World, w3: World)
        requires
            World::graph_extended(w1, w2),
            World::graph_extended(w2, w3),
        ensures
            World::graph_extended(w1, w3),
    {
    }

    /// Growing the graph changes nothing an entity or a registry lookup can
    /// observe.
    pub proof fn lemma_graph_extended_view(pre: World, post: World)
        requires
            pre.wf(),
            World::graph_extended(pre, post),
        ensures
            forall|e: usize| post.live(e) == pre.live(e),
            forall|e: usize|
                pre.live(e) ==> post.record_of(e) == pre.record_of(e) && post.sig_of(e)
                    == pre.sig_of(e) && post.id_comps(e) == pre.id_comps(e),
            post.num_entities() == pre.num_entities(),
            post.num_types() == pre.num_types(),
            forall|tag: u64| post.registered(tag) == pre.registered(tag),
            forall|tag: u64| post.tag_id(tag) == pre.tag_id(tag),
            pre.n_arch() <= post.n_arch(),
            forall|a: int|
                0 <= a < pre.n_arch() ==> post.arch_sig(a) == pre.arch_sig(a)
                    && post.arch_entities(a) == pre.arch_entities(a),
    {
        assert forall|e: usize| pre.live(e) implies post.record_of(e) == pre.record_of(e)
            && post.sig_of(e) == pre.sig_of(e) && post.id_comps(e) == pre.id_comps(e) by {
            assert(pre.record_ok(e as int));
            let r = pre.record_of(e);
            assert(post.archetypes@[r.archetype as int].sig@
                == pre.archetypes@[r.archetype as int].sig@);
            assert(post.id_comps(e) =~= pre.id_comps(e));
        }
    }

    /// One step of the canonical walk: from `node`, follow or create the add
    /// edge for an id above everything in `node`'s signature.
    fn walk_step(&mut self, node: usize, t: usize) -> (b: usize)
        requires
            old(self).wf(),
            (node as int) < old(self).n_arch(),
            (t as int) < old(self).num_types(),
            forall|x: usize| old(self).arch_sig(node as int).contains(x) ==> x < t,
        ensures
            final(self).wf(),
            World::graph_extended(*old(self), *final(self)),
            (b as int) < final(self).n_arch(),
            final(self).arch_sig(b as int) == old(self).arch_sig(node as int).push(t),
    {
        proof {
            lemma_sorted_push(self.arch_sig(node as int), t);
        }
        let r = edge_lookup(&self.archetypes[node].add_edges, t);
        match r {
            Some(b) => {
                proof {
                    let k = choose|k: int|
                        0 <= k < old(self).archetypes@[node as int].add_edges@.len() && old(
                            self,
                        ).archetypes@[node as int].add_edges@[k] == (t, b);
                    assert(old(self).add_edge_ok(node as int, k));
                    assert(old(self).archetypes@[b as int].wf(old(self).registry@.len() as int));
                    lemma_sorted_equal(
                        self.archetypes@[b as int].sig@,
                        self.arch_sig(node as int).push(t),
                    );
                }
                b
            },
            None => {
                let b = self.archetypes.len();
                let mut new_sig = copy_ids(&self.archetypes[node].sig);
                new_sig.push(t);
                let n_cols = new_sig.len();
                let mut remove_edges: Vec<(usize, usize)> = Vec::new();
                remove_edges.push((t, node));
                let arch = Archetype {
                    sig: new_sig,
                    add_edges: Vec::new(),
                    remove_edges,
                    entities: Vec::new(),
                    columns: empty_columns(n_cols),
                };
                self.archetypes.push(arch);
                let node_arch = &mut self.archetypes[node];
                node_arch.add_edges.push((t, b));
                proof {
                    let w0 = *old(self);
                    let w2 = *self;
                    let new_sig_seq = w0.archetypes@[node as int].sig@.push(t);
                    // Everything but `node`'s edge list and the appended node
                    // is untouched.
                    assert(w2.archetypes@.len() == w0.archetypes@.len() + 1);
                    assert(w2.archetypes@[b as int].sig@ == new_sig_seq);
                    assert forall|a: int| 0 <= a < w0.archetypes@.len() implies (
                    #[trigger] w2.archetypes@[a]).sig@ == w0.archetypes@[a].sig@
                        && w2.archetypes@[a].entities@ == w0.archetypes@[a].entities@
                        && w2.archetypes@[a].columns@ == w0.archetypes@[a].columns@
                        && w2.archetypes@[a].remove_edges@ == w0.archetypes@[a].remove_edges@ by {
                    }
                    assert(w2.archetypes@[node as int].add_edges@ == w0.archetypes@[node
                        as int].add_edges@.push((t, b)));
                    assert forall|a: int|
                        0 <= a < w0.archetypes@.len() && a != node as int implies (
                    #[trigger] w2.archetypes@[a]).add_edges@ == w0.archetypes@[a].add_edges@ by {
                    }
                    // No archetype with the new signature existed: it would
                    // have a canonical add edge for `t`, necessarily out of
                    // `node`, and the edge lookup found none.
                    assert forall|a2: int| 0 <= a2 < w0.archetypes@.len() implies (
                    #[trigger] w0.archetypes@[a2]).sig@ != new_sig_seq by {
                        if w0.archetypes@[a2].sig@ == new_sig_seq {
                            assert(w0.archetypes@[a2].sig@.len() > 0);
                            assert(w0.canonical_edge(a2));
                            let (a3, k) = choose|a3: int, k: int|
                                0 <= a3 < w0.archetypes@.len() && 0 <= k
                                    < w0.archetypes@[a3].add_edges@.len() && #[trigger] w0
                                    .archetypes@[a3].add_edges@[k] == (
                                w0.archetypes@[a2].sig@.last(),
                                a2 as usize,
                                );
                            assert(w0.archetypes@[a2].sig@.last() == t);
                            assert(w0.add_edge_ok(a3, k));
                            assert forall|x: usize|
                                w0.archetypes@[a3].sig@.contains(x) <==> w0.archetypes@[node
                                    as int].sig@.contains(x) by {
                                lemma_sorted_push(w0.archetypes@[node as int].sig@, t);
                                if w0.archetypes@[a3].sig@.contains(x) {
                                    assert(w0.archetypes@[a2].sig@.contains(x));
                                    assert(x != t);
                                }
                                if w0.archetypes@[node as int].sig@.contains(x) {
                                    assert(x < t);
                                    assert(new_sig_seq.contains(x));
                                    assert(w0.archetypes@[a2].sig@.contains(x));
                                }
                            }
                            assert(w0.archetypes@[a3].wf(w0.registry@.len() as int));
                            assert(w0.archetypes@[node as int].wf(w0.registry@.len() as int));
                            lemma_sorted_equal(
                                w0.archetypes@[a3].sig@,
                                w0.archetypes@[node as int].sig@,
                            );
                            assert(a3 == node as int);
                            assert(w0.archetypes@[node as int].add_edges@[k].0 == t);
                            assert(false);
                        }
                    }
                    // Well-formedness of the grown world, clause by clause.
                    assert(w2.archetypes@[0].sig@ == w0.archetypes@[0].sig@);
                    assert forall|a: int| 0 <= a < w2.archetypes@.len() implies (
                    #[trigger] w2.archetypes@[a]).wf(w2.registry@.len() as int) by {
                        if a < w0.archetypes@.len() {
                            assert(w0.archetypes@[a].wf(w0.registry@.len() as int));
                        } else {
                            assert(w2.archetypes@[a].sig@ == new_sig_seq);
                            assert(w0.archetypes@[node as int].wf(w0.registry@.len() as int));
                            assert forall|k: int|
                                0 <= k < new_sig_seq.len() implies new_sig_seq[k] < w2.registry@.len()
                                as int by {
                                if k < new_sig_seq.len() - 1 {
                                    assert(new_sig_seq[k] == w0.archetypes@[node as int].sig@[k]);
                                }
                            }
                        }
                    }
                    assert forall|a1: int, a2: int|
                        0 <= a1 < w2.archetypes@.len() && 0 <= a2 < w2.archetypes@.len() && a1
                            != a2 implies #[trigger] w2.archetypes@[a1].sig@
                        != #[trigger] w2.archetypes@[a2].sig@ by {
                        if a1 < w0.archetypes@.len() && a2 < w0.archetypes@.len() {
                            assert(w0.archetypes@[a1].sig@ != w0.archetypes@[a2].sig@);
                        }
                    }
                    assert forall|a: int, k: int|
                        0 <= a < w2.archetypes@.len() && 0 <= k
                            < w2.archetypes@[a].add_edges@.len() implies #[trigger] w2.add_edge_ok(
                        a,
                        k,
                    ) by {
                        if a == node as int && k == w2.archetypes@[a].add_edges@.len() - 1 {
                            assert(w2.archetypes@[a].add_edges@[k] == (t, b));
                            assert(!w2.archetypes@[a].sig@.contains(t));
                            assert(sig_plus(w2.archetypes@[a].sig@, w2.archetypes@[b as int].sig@, t));
                        } else if a < w0.archetypes@.len() {
                            assert(w0.add_edge_ok(a, k));
                            assert(w2.archetypes@[a].add_edges@[k] == w0.archetypes@[a].add_edges@[k]);
                        } else {
                            assert(w2.archetypes@[a].add_edges@.len() == 0);
                        }
                    }
                    assert forall|a: int, k: int|
                        0 <= a < w2.archetypes@.len() && 0 <= k
                            < w2.archetypes@[a].remove_edges@.len() implies #[trigger] w2
                        .remove_edge_ok(a, k) by {
                        if a < w0.archetypes@.len() {
                            assert(w0.remove_edge_ok(a, k));
                        } else {
                            assert(w2.archetypes@[a].remove_edges@[k] == (t, node));
                            assert(w2.archetypes@[a].sig@ == new_sig_seq);
                            assert(new_sig_seq.contains(t));
                            assert(sig_minus(new_sig_seq, w2.archetypes@[node as int].sig@, t));
                        }
                    }
                    assert forall|b2: int|
                        0 <= b2 < w2.archetypes@.len() && w2.archetypes@[b2].sig@.len()
                            > 0 implies #[trigger] w2.canonical_edge(b2) by {
                        if b2 < w0.archetypes@.len() {
                            assert(w0.canonical_edge(b2));
                            let (a3, k) = choose|a3: int, k: int|
                                0 <= a3 < w0.archetypes@.len() && 0 <= k
                                    < w0.archetypes@[a3].add_edges@.len() && #[trigger] w0
                                    .archetypes@[a3].add_edges@[k] == (
                                w0.archetypes@[b2].sig@.last(),
                                b2 as usize,
                                );
                            assert(w2.archetypes@[a3].add_edges@[k] == (
                                w2.archetypes@[b2].sig@.last(),
                                b2 as usize,
                            ));
                        } else {
                            let k = w2.archetypes@[node as int].add_edges@.len() - 1;
                            assert(new_sig_seq.last() == t);
                            assert(w2.archetypes@[node as int].add_edges@[k] == (
                                w2.archetypes@[b2].sig@.last(),
                                b2 as usize,
                            ));
                        }
                    }
                    assert forall|e: int|
                        0 <= e < w2.index@.len() && w2.index@[e] is Some implies #[trigger] w2
                        .record_ok(e) by {
                        assert(w0.record_ok(e));
                    }
                    assert forall|a: int, row: int|
                        0 <= a < w2.archetypes@.len() && 0 <= row
                            < w2.archetypes@[a].entities@.len() implies #[trigger] w2.row_ok(
                        a,
                        row,
                    ) by {
                        if a < w0.archetypes@.len() {
                            assert(w0.row_ok(a, row));
                        }
                    }
                }
                b
            },
        }
    }

    /// The archetype whose signature is exactly `sig`: the sorted walk from
    /// the root, following one add edge per id and creating missing nodes
    /// lazily along the way.
    pub fn find_archetype(&mut self, sig: &Vec<usize>) -> (a: usize)
        requires
            old(self).wf(),
            sorted(sig@),
            forall|k: int| 0 <= k < sig@.len() ==> (sig@[k] as int) < old(self).num_types(),
        ensures
            final(self).wf(),
            World::graph_extended(*old(self), *final(self)),
            (a as int) < final(self).n_arch(),
            final(self).arch_sig(a as int) == sig@,
    {
        let mut node: usize = 0;
        let mut k: usize = 0;
        proof {
            assert(self.arch_sig(0) =~= sig@.take(0));
        }
        while k < sig.len()
            invariant
                self.wf(),
                World::graph_extended(*old(self), *self),
                k <= sig@.len(),
                (node as int) < self.n_arch(),
                self.arch_sig(node as int) == sig@.take(k as int),
                sorted(sig@),
                forall|j: int| 0 <= j < sig@.len() ==> (sig@[j] as int) < self.num_types(),
            decreases sig@.len() - k,
        {
            let ghost pre = *self;
            let t = sig[k];
            proof {
                assert forall|x: usize| self.arch_sig(node as int).contains(x) implies x < t by {
                    let j = choose|j: int|
                        0 <= j < sig@.take(k as int).len() && sig@.take(k as int)[j] == x;
                    assert(sig@[j] == x);
                }
            }
            let next = self.walk_step(node, t);
            proof {
                World::lemma_graph_extended_trans(*old(self), pre, *self);
                assert(sig@.take(k as int).push(t) =~= sig@.take(k as int + 1));
            }
            node = next;
            k = k + 1;
        }
        proof {
            assert(sig@.take(sig@.len() as int) =~= sig@);
        }
        node
    }

    /// Signatures determine archetypes: two handles whose signatures hold the
    /// same ids are the same handle.
    pub proof fn lemma_sig_unique(self, a1: int, a2: int)
        requires
            self.wf(),
            0 <= a1 < self.n_arch(),
            0 <= a2 < self.n_arch(),
            forall|x: usize| self.arch_sig(a1).contains(x) <==> self.arch_sig(a2).contains(x),
        ensures
            a1 == a2,
    {
        assert(self.archetypes@[a1].wf(self.registry@.len() as int));
        assert(self.archetypes@[a2].wf(self.registry@.len() as int));
        assert forall|x: usize|
            self.archetypes@[a1].sig@.contains(x) <==> self.archetypes@[a2].sig@.contains(x) by {
            assert(self.arch_sig(a1).contains(x) <==> self.arch_sig(a2).contains(x));
        }
        lemma_sorted_equal(self.archetypes@[a1].sig@, self.archetypes@[a2].sig@);
    }

    /// The archetype reached from `a` by adding component type `t`: the
    /// target of the add edge for `t`, created first if missing, along with
    /// the inverse remove edge. Asking to add a type the signature already
    /// holds is a caller error, excluded by contract; the component
    /// operations check before they walk.
    pub fn with(&mut self, a: usize, t: usize) -> (b: usize)
        requires
            old(self).wf(),
            (a as int) < old(self).n_arch(),
            (t as int) < old(self).num_types(),
            !old(self).arch_sig(a as int).contains(t),
        ensures
            final(self).wf(),
            World::graph_extended(*old(self), *final(self)),
            (b as int) < final(self).n_arch(),
            sig_plus(old(self).arch_sig(a as int), final(self).arch_sig(b as int), t),
    {
        let r = edge_lookup(&self.archetypes[a].add_edges, t);
        match r {
            Some(b) => {
                proof {
                    let k = choose|k: int|
                        0 <= k < old(self).archetypes@[a as int].add_edges@.len() && old(
                            self,
                        ).archetypes@[a as int].add_edges@[k] == (t, b);
                    assert(old(self).add_edge_ok(a as int, k));
                }
                b
            },
            None => {
                let p = sig_position(&self.archetypes[a].sig, t);
                let mut dest_sig = copy_ids(&self.archetypes[a].sig);
                proof {
                    let s = old(self).archetypes@[a as int].sig@;
                    assert(old(self).archetypes@[a as int].wf(old(self).registry@.len() as int));
                    assert forall|i: int| p <= i < s.len() implies s[i] > t by {
                        assert(s.contains(s[i]));
                    }
                    lemma_sorted_insert(s, p as int, t);
                }
                dest_sig.insert(p, t);
                proof {
                    let s = old(self).archetypes@[a as int].sig@;
                    let d = dest_sig@;
                    assert(d == s.insert(p as int, t));
                    assert forall|k: int| 0 <= k < d.len() implies (d[k] as int) < old(
                        self,
                    ).num_types() by {
                        assert(d.contains(d[k]));
                        if d[k] != t {
                            assert(s.contains(d[k]));
                            let j = choose|j: int| 0 <= j < s.len() && s[j] == d[k];
                        }
                    }
                }
                let b = self.find_archetype(&dest_sig);
                let ghost w1 = *self;
                // The walk may itself have installed an edge for `t` on `a`;
                // a second entry is harmless, lookups take the first and
                // every entry satisfies the edge invariant.
                let a_arch = &mut self.archetypes[a];
                a_arch.add_edges.push((t, b));
                let b_arch = &mut self.archetypes[b];
                b_arch.remove_edges.push((t, a));
                proof {
                    let w2 = *self;
                    let s = old(self).archetypes@[a as int].sig@;
                    let d = w1.archetypes@[b as int].sig@;
                    assert(d == s.insert(p as int, t));
                    // Only two edge lists changed; signatures, rows, registry
                    // and index are untouched.
                    assert(w2.archetypes@.len() == w1.archetypes@.len());
                    assert forall|a2: int| 0 <= a2 < w1.archetypes@.len() implies (
                    #[trigger] w2.archetypes@[a2]).sig@ == w1.archetypes@[a2].sig@
                        && w2.archetypes@[a2].entities@ == w1.archetypes@[a2].entities@
                        && w2.archetypes@[a2].columns@ == w1.archetypes@[a2].columns@ by {}
                    assert(World::graph_extended(w1, w2));
                    World::lemma_graph_extended_trans(*old(self), w1, w2);
                    // Well-formedness, clause by clause.
                    assert forall|a2: int| 0 <= a2 < w2.archetypes@.len() implies (
                    #[trigger] w2.archetypes@[a2]).wf(w2.registry@.len() as int) by {
                        assert(w1.archetypes@[a2].wf(w1.registry@.len() as int));
                    }
                    assert forall|a1: int, a2: int|
                        0 <= a1 < w2.archetypes@.len() && 0 <= a2 < w2.archetypes@.len() && a1
                            != a2 implies #[trigger] w2.archetypes@[a1].sig@
                        != #[trigger] w2.archetypes@[a2].sig@ by {
                        assert(w1.archetypes@[a1].sig@ != w1.archetypes@[a2].sig@);
                    }
                    assert forall|a2: int, k: int|
                        0 <= a2 < w2.archetypes@.len() && 0 <= k
                            < w2.archetypes@[a2].add_edges@.len() implies #[trigger] w2.add_edge_ok(
                        a2,
                        k,
                    ) by {
                        if a2 == a as int && k == w2.archetypes@[a2].add_edges@.len() - 1 {
                            assert(w2.archetypes@[a2].add_edges@[k] == (t, b));
                            assert(sig_plus(w2.archetypes@[a as int].sig@, w2.archetypes@[b as int].sig@, t));
                        } else {
                            assert(w2.archetypes@[a2].add_edges@[k] == w1.archetypes@[a2].add_edges@[k]);
                            assert(w1.add_edge_ok(a2, k));
                        }
                    }
                    assert forall|a2: int, k: int|
                        0 <= a2 < w2.archetypes@.len() && 0 <= k
                            < w2.archetypes@[a2].remove_edges@.len() implies #[trigger] w2
                        .remove_edge_ok(a2, k) by {
                        if a2 == b as int && k == w2.archetypes@[a2].remove_edges@.len() - 1 {
                            assert(w2.archetypes@[a2].remove_edges@[k] == (t, a));
                            assert(w2.archetypes@[b as int].sig@.contains(t));
                            assert(sig_minus(w2.archetypes@[b as int].sig@, w2.archetypes@[a as int].sig@, t));
                        } else {
                            assert(w2.archetypes@[a2].remove_edges@[k] == w1.archetypes@[a2].remove_edges@[k]);
                            assert(w1.remove_edge_ok(a2, k));
                        }
                    }
                    assert forall|b2: int|
                        0 <= b2 < w2.archetypes@.len() && w2.archetypes@[b2].sig@.len()
                            > 0 implies #[trigger] w2.canonical_edge(b2) by {
                        assert(w1.canonical_edge(b2));
                        let (a3, k) = choose|a3: int, k: int|
                            0 <= a3 < w1.archetypes@.len() && 0 <= k
                                < w1.archetypes@[a3].add_edges@.len() && #[trigger] w1
                                .archetypes@[a3].add_edges@[k] == (
                            w1.archetypes@[b2].sig@.last(),
                            b2 as usize,
                            );
                        assert(w2.archetypes@[a3].add_edges@[k] == (
                            w2.archetypes@[b2].sig@.last(),
                            b2 as usize,
                        ));
                    }
                    assert forall|e: int|
                        0 <= e < w2.index@.len() && w2.index@[e] is Some implies #[trigger] w2
                        .record_ok(e) by {
                        assert(w1.record_ok(e));
                    }
                    assert forall|a2: int, row: int|
                        0 <= a2 < w2.archetypes@.len() && 0 <= row
                            < w2.archetypes@[a2].entities@.len() implies #[trigger] w2.row_ok(
                        a2,
                        row,
                    ) by {
                        assert(w1.row_ok(a2, row));
                    }
                }
                b
            },
        }
    }

    /// The archetype reached from `a` by removing component type `t`: the
    /// target of the remove edge for `t`, created first if missing, along
    /// with the inverse add edge. Asking to remove a type the signature
    /// lacks is a caller error, excluded by contract; the component
    /// operations check before they walk.
    pub fn without(&mut self, a: usize, t: usize) -> (b: usize)
        requires
            old(self).wf(),
            (a as int) < old(self).n_arch(),
            old(self).arch_sig(a as int).contains(t),
        ensures
            final(self).wf(),
            World::graph_extended(*old(self), *final(self)),
            (b as int) < final(self).n_arch(),
            sig_minus(old(self).arch_sig(a as int), final(self).arch_sig(b as int), t),
    {
        proof {
            assert(old(self).archetypes@[a as int].wf(old(self).registry@.len() as int));
        }
        let r = edge_lookup(&self.archetypes[a].remove_edges, t);
        match r {
            Some(b) => {
                proof {
                    let k = choose|k: int|
                        0 <= k < old(self).archetypes@[a as int].remove_edges@.len() && old(
                            self,
                        ).archetypes@[a as int].remove_edges@[k] == (t, b);
                    assert(old(self).remove_edge_ok(a as int, k));
                }
                b
            },
            None => {
                let p = match sig_find(&self.archetypes[a].sig, t) {
                    Some(p) => p,
                    None => {
                        proof {
                            assert(false);
                        }
                        0
                    },
                };
                let mut dest_sig = copy_ids(&self.archetypes[a].sig);
                proof {
                    lemma_sorted_remove(old(self).archetypes@[a as int].sig@, p as int);
                }
                dest_sig.remove(p);
                proof {
                    let s = old(self).archetypes@[a as int].sig@;
                    let d = dest_sig@;
                    assert(d == s.remove(p as int));
                    assert forall|k: int| 0 <= k < d.len() implies (d[k] as int) < old(
                        self,
                    ).num_types() by {
                        assert(d.contains(d[k]));
                        assert(s.contains(d[k]));
                        let j = choose|j: int| 0 <= j < s.len() && s[j] == d[k];
                    }
                }
                let b = self.find_archetype(&dest_sig);
                let ghost w1 = *self;
                // As in `with`, a second entry for a key is harmless.
                let a_arch = &mut self.archetypes[a];
                a_arch.remove_edges.push((t, b));
                let b_arch = &mut self.archetypes[b];
                b_arch.add_edges.push((t, a));
                proof {
                    let w2 = *self;
                    let s = old(self).archetypes@[a as int].sig@;
                    assert(w1.archetypes@[b as int].sig@ == s.remove(p as int));
                    assert(s[p as int] == t);
                    assert(w2.archetypes@.len() == w1.archetypes@.len());
                    assert forall|a2: int| 0 <= a2 < w1.archetypes@.len() implies (
                    #[trigger] w2.archetypes@[a2]).sig@ == w1.archetypes@[a2].sig@
                        && w2.archetypes@[a2].entities@ == w1.archetypes@[a2].entities@
                        && w2.archetypes@[a2].columns@ == w1.archetypes@[a2].columns@ by {}
                    assert(World::graph_extended(w1, w2));
                    World::lemma_graph_extended_trans(*old(self), w1, w2);
                    assert forall|a2: int| 0 <= a2 < w2.archetypes@.len() implies (
                    #[trigger] w2.archetypes@[a2]).wf(w2.registry@.len() as int) by {
                        assert(w1.archetypes@[a2].wf(w1.registry@.len() as int));
                    }
                    assert forall|a1: int, a2: int|
                        0 <= a1 < w2.archetypes@.len() && 0 <= a2 < w2.archetypes@.len() && a1
                            != a2 implies #[trigger] w2.archetypes@[a1].sig@
                        != #[trigger] w2.archetypes@[a2].sig@ by {
                        assert(w1.archetypes@[a1].sig@ != w1.archetypes@[a2].sig@);
                    }
                    assert forall|a2: int, k: int|
                        0 <= a2 < w2.archetypes@.len() && 0 <= k
                            < w2.archetypes@[a2].add_edges@.len() implies #[trigger] w2.add_edge_ok(
                        a2,
                        k,
                    ) by {
                        if a2 == b as int && k == w2.archetypes@[a2].add_edges@.len() - 1 {
                            assert(w2.archetypes@[a2].add_edges@[k] == (t, a));
                            assert(!w2.archetypes@[b as int].sig@.contains(t));
                            assert(sig_plus(w2.archetypes@[b as int].sig@, w2.archetypes@[a as int].sig@, t));
                        } else {
                            assert(w2.archetypes@[a2].add_edges@[k] == w1.archetypes@[a2].add_edges@[k]);
                            assert(w1.add_edge_ok(a2, k));
                        }
                    }
                    assert forall|a2: int, k: int|
                        0 <= a2 < w2.archetypes@.len() && 0 <= k
                            < w2.archetypes@[a2].remove_edges@.len() implies #[trigger] w2
                        .remove_edge_ok(a2, k) by {
                        if a2 == a as int && k == w2.archetypes@[a2].remove_edges@.len() - 1 {
                            assert(w2.archetypes@[a2].remove_edges@[k] == (t, b));
                            assert(w2.archetypes@[a as int].sig@.contains(t));
                            assert(sig_minus(w2.archetypes@[a as int].sig@, w2.archetypes@[b as int].sig@, t));
                        } else {
                            assert(w2.archetypes@[a2].remove_edges@[k] == w1.archetypes@[a2].remove_edges@[k]);
                            assert(w1.remove_edge_ok(a2, k));
                        }
                    }
                    assert forall|b2: int|
                        0 <= b2 < w2.archetypes@.len() && w2.archetypes@[b2].sig@.len()
                            > 0 implies #[trigger] w2.canonical_edge(b2) by {
                        assert(w1.canonical_edge(b2));
                        let (a3, k) = choose|a3: int, k: int|
                            0 <= a3 < w1.archetypes@.len() && 0 <= k
                                < w1.archetypes@[a3].add_edges@.len() && #[trigger] w1
                                .archetypes@[a3].add_edges@[k] == (
                            w1.archetypes@[b2].sig@.last(),
                            b2 as usize,
                            );
                        assert(w2.archetypes@[a3].add_edges@[k] == (
                            w2.archetypes@[b2].sig@.last(),
                            b2 as usize,
                        ));
                    }
                    assert forall|e: int|
                        0 <= e < w2.index@.len() && w2.index@[e] is Some implies #[trigger] w2
                        .record_ok(e) by {
                        assert(w1.record_ok(e));
                    }
                    assert forall|a2: int, row: int|
                        0 <= a2 < w2.archetypes@.len() && 0 <= row
                            < w2.archetypes@[a2].entities@.len() implies #[trigger] w2.row_ok(
                        a2,
                        row,
                    ) by {
                        assert(w1.row_ok(a2, row));
                    }
                }
                b
            },
        }
    }

    /// Two worlds agree on everything entity `e` can observe when its record
    /// and its archetype's signature and columns agree.
    proof fn lemma_same_entity_view(w1: World, w2: World, e: usize)
        requires
            w1.live(e),
            w2.live(e),
            w1.record_of(e) == w2.record_of(e),
            w1.archetypes@[w1.record_of(e).archetype as int].sig@ == w2.archetypes@[w2.record_of(
                e,
            ).archetype as int].sig@,
            w1.archetypes@[w1.record_of(e).archetype as int].columns@ == w2.archetypes@[w2
                .record_of(e).archetype as int].columns@,
        ensures
            w1.sig_of(e) == w2.sig_of(e),
            w1.id_comps(e) == w2.id_comps(e),
    {
        assert(w1.id_comps(e) =~= w2.id_comps(e));
    }

    /// Detach entity `e`'s row from its archetype and return the row's
    /// values, in signature order. The hole is closed by swapping the last
    /// row in, and the swapped entity's record is re-pointed at its new row
    /// before anything else observes the index. Afterwards `e` is not live.
    fn remove_entity_row(&mut self, e: usize) -> (vals: Vec<u64>)
        requires
            old(self).wf(),
            old(self).live(e),
        ensures
            final(self).wf(),
            final(self).num_entities() == old(self).num_entities(),
            !final(self).live(e),
            forall|e2: usize| e2 != e ==> final(self).live(e2) == old(self).live(e2),
            forall|e2: usize|
                e2 != e && old(self).live(e2) ==> final(self).sig_of(e2) == old(self).sig_of(e2)
                    && final(self).id_comps(e2) == old(self).id_comps(e2),
            final(self).reg() == old(self).reg(),
            final(self).n_arch() == old(self).n_arch(),
            forall|a: int|
                0 <= a < old(self).n_arch() ==> final(self).arch_sig(a) == old(self).arch_sig(a),
            vals@.len() == old(self).sig_of(e).len(),
            forall|k: int|
                0 <= k < vals@.len() ==> vals@[k] == old(self).id_comps(e)[old(self).sig_of(e)[k]],
    {
        let ghost w0 = *old(self);
        proof {
            assert(w0.record_ok(e as int));
            assert(self.index.len() == self.index@.len());
        }
        let rec = match self.index[e] {
            Some(r) => r,
            None => {
                proof {
                    assert(false);
                }
                Record { archetype: 0, row: 0 }
            },
        };
        let a = rec.archetype;
        let row = rec.row;
        proof {
            assert(w0.archetypes@[a as int].wf(w0.registry@.len() as int));
            assert(lockstep(w0.archetypes@[a as int]));
        }
        let vals = read_row(&self.archetypes[a], row);
        let last = self.archetypes[a].entities.len() - 1;
        let moved = self.archetypes[a].entities[last];
        proof {
            assert(w0.row_ok(a as int, last as int));
            if row < last {
                if moved == e {
                    assert(w0.index@[e as int] == Some(
                        Record { archetype: a, row: last as usize },
                    ));
                    assert(false);
                }
            }
        }
        remove_row(&mut self.archetypes[a], row);
        self.index[e] = None;
        if row < last {
            self.index[moved] = Some(Record { archetype: a, row });
        }
        proof {
            let f = *self;
            assert(f.archetypes.len() == f.archetypes@.len());
            assert(f.index.len() == f.index@.len());
            let arch0 = w0.archetypes@[a as int];
            let ent0 = arch0.entities@;
            let ent1 = ent0.update(row as int, ent0.last()).drop_last();
            assert(moved == ent0.last());
            assert(ent0[row as int] == e);
            // Index entries other than `e` and `moved` are untouched.
            assert forall|e2: int|
                0 <= e2 < w0.index@.len() && e2 != e as int && (row < last ==> e2 != moved
                    as int) implies f.index@[e2] == w0.index@[e2] by {}
            assert(f.index@[e as int] is None);
            // Well-formedness.
            assert forall|a2: int| 0 <= a2 < f.archetypes@.len() implies (
            #[trigger] f.archetypes@[a2]).wf(f.registry@.len() as int) by {
                assert(w0.archetypes@[a2].wf(w0.registry@.len() as int));
                if a2 == a as int {
                    assert(f.archetypes@[a2].sig@ == arch0.sig@);
                    assert(lockstep(f.archetypes@[a2]));
                }
            }
            assert forall|a1: int, a2: int|
                0 <= a1 < f.archetypes@.len() && 0 <= a2 < f.archetypes@.len() && a1
                    != a2 implies #[trigger] f.archetypes@[a1].sig@
                != #[trigger] f.archetypes@[a2].sig@ by {
                assert(w0.archetypes@[a1].sig@ != w0.archetypes@[a2].sig@);
                assert(f.archetypes@[a1].sig@ == w0.archetypes@[a1].sig@);
                assert(f.archetypes@[a2].sig@ == w0.archetypes@[a2].sig@);
            }
            assert forall|a2: int, k: int|
                0 <= a2 < f.archetypes@.len() && 0 <= k
                    < f.archetypes@[a2].add_edges@.len() implies #[trigger] f.add_edge_ok(
                a2,
                k,
            ) by {
                assert(f.archetypes@[a2].add_edges@ == w0.archetypes@[a2].add_edges@);
                assert(w0.add_edge_ok(a2, k));
                let b = w0.archetypes@[a2].add_edges@[k].1;
                assert(f.archetypes@[b as int].sig@ == w0.archetypes@[b as int].sig@);
                assert(f.archetypes@[a2].sig@ == w0.archetypes@[a2].sig@);
            }
            assert forall|a2: int, k: int|
                0 <= a2 < f.archetypes@.len() && 0 <= k
                    < f.archetypes@[a2].remove_edges@.len() implies #[trigger] f.remove_edge_ok(
                a2,
                k,
            ) by {
                assert(f.archetypes@[a2].remove_edges@ == w0.archetypes@[a2].remove_edges@);
                assert(w0.remove_edge_ok(a2, k));
                let b = w0.archetypes@[a2].remove_edges@[k].1;
                assert(f.archetypes@[b as int].sig@ == w0.archetypes@[b as int].sig@);
                assert(f.archetypes@[a2].sig@ == w0.archetypes@[a2].sig@);
            }
            assert forall|b2: int|
                0 <= b2 < f.archetypes@.len() && f.archetypes@[b2].sig@.len()
                    > 0 implies #[trigger] f.canonical_edge(b2) by {
                assert(f.archetypes@[b2].sig@ == w0.archetypes@[b2].sig@);
                assert(w0.canonical_edge(b2));
                let (a3, k) = choose|a3: int, k: int|
                    0 <= a3 < w0.archetypes@.len() && 0 <= k < w0.archetypes@[a3].add_edges@.len()
                        && #[trigger] w0.archetypes@[a3].add_edges@[k] == (
                    w0.archetypes@[b2].sig@.last(),
                    b2 as usize,
                    );
                assert(f.archetypes@[a3].add_edges@[k] == (
                    f.archetypes@[b2].sig@.last(),
                    b2 as usize,
                ));
            }
            assert forall|e2: int|
                0 <= e2 < f.index@.len() && f.index@[e2] is Some implies #[trigger] f.record_ok(
                e2,
            ) by {
                if row < last && e2 == moved as int {
                    assert(f.index@[e2] == Some(Record { archetype: a, row }));
                    assert(f.archetypes@[a as int].entities@ == ent1);
                    assert(ent1[row as int] == ent0.last());
                } else {
                    assert(e2 != e as int);
                    assert(f.index@[e2] == w0.index@[e2]);
                    assert(w0.record_ok(e2));
                    let r2 = w0.index@[e2].unwrap();
                    if r2.archetype == a {
                        // `e2`'s row is neither the removed row nor the last.
                        assert(w0.row_ok(a as int, r2.row as int));
                        if r2.row == row {
                            assert(ent0[r2.row as int] == e2 as usize);
                            assert(false);
                        }
                        if r2.row == last {
                            assert(e2 == moved as int);
                            assert(row == last);
                            assert(false);
                        }
                        assert((r2.row as int) < ent1.len());
                        assert(ent1[r2.row as int] == ent0[r2.row as int]);
                    } else {
                        assert(f.archetypes@[r2.archetype as int].entities@ == w0.archetypes@[r2
                            .archetype as int].entities@);
                    }
                }
            }
            assert forall|a2: int, row2: int|
                0 <= a2 < f.archetypes@.len() && 0 <= row2
                    < f.archetypes@[a2].entities@.len() implies #[trigger] f.row_ok(a2, row2) by {
                if a2 == a as int {
                    if row2 == row as int && row < last {
                        assert(ent1[row2] == moved);
                        assert(f.index@[moved as int] == Some(Record { archetype: a, row }));
                    } else {
                        assert(ent1[row2] == ent0[row2]);
                        let e2 = ent0[row2];
                        assert(w0.row_ok(a2, row2));
                        if e2 == e {
                            assert(w0.index@[e as int] == Some(
                                Record { archetype: a, row: row2 as usize },
                            ));
                            assert(row2 == row as int);
                            assert(row == last);
                            assert(row2 < ent1.len());
                            assert(false);
                        }
                        if row < last && e2 == moved {
                            assert(w0.index@[moved as int] == Some(
                                Record { archetype: a, row: row2 as usize },
                            ));
                            assert(row2 == last as int);
                            assert(false);
                        }
                        assert(f.index@[e2 as int] == w0.index@[e2 as int]);
                    }
                } else {
                    assert(f.archetypes@[a2].entities@ == w0.archetypes@[a2].entities@);
                    let e2 = w0.archetypes@[a2].entities@[row2];
                    assert(w0.row_ok(a2, row2));
                    assert(e2 != e);
                    if row < last {
                        if e2 == moved {
                            assert(w0.index@[moved as int] == Some(
                                Record { archetype: a2 as usize, row: row2 as usize },
                            ));
                            assert(w0.index@[moved as int] == Some(
                                Record { archetype: a, row: last as usize },
                            ));
                            assert(false);
                        }
                    }
                    assert(f.index@[e2 as int] == w0.index@[e2 as int]);
                }
            }
            // The returned values are the detached row, in signature order.
            assert(sorted(arch0.sig@));
            assert forall|k: int| 0 <= k < vals@.len() implies vals@[k] == w0.id_comps(e)[w0.sig_of(
                e,
            )[k]] by {
                lemma_sig_index(arch0.sig@, k);
                assert(w0.val_of(e, arch0.sig@[k]) == arch0.columns@[k]@[row as int]);
                assert(w0.sig_of(e).contains(arch0.sig@[k]));
            }
            // Surviving entities observe the same components.
            assert forall|e2: usize| e2 != e && w0.live(e2) implies f.sig_of(e2) == w0.sig_of(e2)
                && f.id_comps(e2) == w0.id_comps(e2) by {
                assert(w0.record_ok(e2 as int));
                let r2 = w0.record_of(e2);
                if row < last && e2 == moved {
                    assert(r2 == Record { archetype: a, row: last as usize });
                    assert(f.record_of(e2) == Record { archetype: a, row });
                    assert(f.sig_of(e2) == arch0.sig@);
                    assert forall|id: usize| w0.sig_of(e2).contains(id) implies f.val_of(e2, id)
                        == w0.val_of(e2, id) by {
                        lemma_sig_index_of(arch0.sig@, id);
                        let kk = sig_index(arch0.sig@, id);
                        assert(f.archetypes@[a as int].columns@[kk]@ == arch0.columns@[kk]@.update(
                            row as int,
                            arch0.columns@[kk]@.last(),
                        ).drop_last());
                        assert(f.archetypes@[a as int].columns@[kk]@[row as int]
                            == arch0.columns@[kk]@.last());
                    }
                    assert(f.id_comps(e2) =~= w0.id_comps(e2));
                } else {
                    assert(f.index@[e2 as int] == w0.index@[e2 as int]);
                    assert(f.record_of(e2) == r2);
                    if r2.archetype == a {
                        assert(w0.row_ok(a as int, r2.row as int));
                        assert(r2.row != row);
                        assert((r2.row as int) < ent1.len());
                        assert(f.sig_of(e2) == arch0.sig@);
                        assert forall|id: usize| w0.sig_of(e2).contains(id) implies f.val_of(
                            e2,
                            id,
                        ) == w0.val_of(e2, id) by {
                            lemma_sig_index_of(arch0.sig@, id);
                            let kk = sig_index(arch0.sig@, id);
                            assert(f.archetypes@[a as int].columns@[kk]@ == arch0.columns@[
                            kk]@.update(row as int, arch0.columns@[kk]@.last()).drop_last());
                            assert(f.archetypes@[a as int].columns@[kk]@[r2.row as int]
                                == arch0.columns@[kk]@[r2.row as int]);
                        }
                        assert(f.id_comps(e2) =~= w0.id_comps(e2));
                    } else {
                        World::lemma_same_entity_view(w0, f, e2);
                    }
                }
            }
        }
        vals
    }

    /// Append a detached row for entity `e` to archetype `dest` and point
    /// `e`'s record at it, as the final step of the move.
    fn attach_row(&mut self, e: usize, dest: usize, vals: &Vec<u64>)
        requires
            old(self).wf(),
            (e as int) < old(self).num_entities(),
            !old(self).live(e),
            (dest as int) < old(self).n_arch(),
            vals@.len() == old(self).arch_sig(dest as int).len(),
        ensures
            final(self).wf(),
            final(self).num_entities() == old(self).num_entities(),
            final(self).live(e),
            forall|e2: usize| e2 != e ==> final(self).live(e2) == old(self).live(e2),
            forall|e2: usize|
                e2 != e && old(self).live(e2) ==> final(self).record_of(e2) == old(self).record_of(
                    e2,
                ) && final(self).sig_of(e2) == old(self).sig_of(e2) && final(self).id_comps(e2)
                    == old(self).id_comps(e2),
            final(self).reg() == old(self).reg(),
            final(self).n_arch() == old(self).n_arch(),
            forall|a: int|
                0 <= a < old(self).n_arch() ==> final(self).arch_sig(a) == old(self).arch_sig(a),
            final(self).record_of(e).archetype == dest,
            final(self).sig_of(e) == old(self).arch_sig(dest as int),
            forall|k: int|
                0 <= k < vals@.len() ==> final(self).id_comps(e)[old(self).arch_sig(dest as int)[k]]
                    == vals@[k],
    {
        let ghost w0 = *old(self);
        proof {
            assert(w0.archetypes@[dest as int].wf(w0.registry@.len() as int));
            assert(lockstep(w0.archetypes@[dest as int]));
            assert(self.index.len() == self.index@.len());
        }
        insert_row(&mut self.archetypes[dest], e, vals);
        let row = self.archetypes[dest].entities.len() - 1;
        self.index[e] = Some(Record { archetype: dest, row });
        proof {
            let f = *self;
            let arch0 = w0.archetypes@[dest as int];
            assert(row as int == arch0.entities@.len());
            assert(f.archetypes@[dest as int].entities@ == arch0.entities@.push(e));
            assert forall|e2: int|
                0 <= e2 < w0.index@.len() && e2 != e as int implies f.index@[e2] == w0.index@[e2] by {}
            // Well-formedness.
            assert forall|a2: int| 0 <= a2 < f.archetypes@.len() implies (
            #[trigger] f.archetypes@[a2]).wf(f.registry@.len() as int) by {
                assert(w0.archetypes@[a2].wf(w0.registry@.len() as int));
                if a2 == dest as int {
                    assert(f.archetypes@[a2].sig@ == arch0.sig@);
                    assert(lockstep(f.archetypes@[a2]));
                }
            }
            assert forall|a1: int, a2: int|
                0 <= a1 < f.archetypes@.len() && 0 <= a2 < f.archetypes@.len() && a1
                    != a2 implies #[trigger] f.archetypes@[a1].sig@
                != #[trigger] f.archetypes@[a2].sig@ by {
                assert(w0.archetypes@[a1].sig@ != w0.archetypes@[a2].sig@);
                assert(f.archetypes@[a1].sig@ == w0.archetypes@[a1].sig@);
                assert(f.archetypes@[a2].sig@ == w0.archetypes@[a2].sig@);
            }
            assert forall|a2: int, k: int|
                0 <= a2 < f.archetypes@.len() && 0 <= k
                    < f.archetypes@[a2].add_edges@.len() implies #[trigger] f.add_edge_ok(
                a2,
                k,
            ) by {
                assert(f.archetypes@[a2].add_edges@ == w0.archetypes@[a2].add_edges@);
                assert(w0.add_edge_ok(a2, k));
                let b = w0.archetypes@[a2].add_edges@[k].1;
                assert(f.archetypes@[b as int].sig@ == w0.archetypes@[b as int].sig@);
                assert(f.archetypes@[a2].sig@ == w0.archetypes@[a2].sig@);
            }
            assert forall|a2: int, k: int|
                0 <= a2 < f.archetypes@.len() && 0 <= k
                    < f.archetypes@[a2].remove_edges@.len() implies #[trigger] f.remove_edge_ok(
                a2,
                k,
            ) by {
                assert(f.archetypes@[a2].remove_edges@ == w0.archetypes@[a2].remove_edges@);
                assert(w0.remove_edge_ok(a2, k));
                let b = w0.archetypes@[a2].remove_edges@[k].1;
                assert(f.archetypes@[b as int].sig@ == w0.archetypes@[b as int].sig@);
                assert(f.archetypes@[a2].sig@ == w0.archetypes@[a2].sig@);
            }
            assert forall|b2: int|
                0 <= b2 < f.archetypes@.len() && f.archetypes@[b2].sig@.len()
                    > 0 implies #[trigger] f.canonical_edge(b2) by {
                assert(f.archetypes@[b2].sig@ == w0.archetypes@[b2].sig@);
                assert(w0.canonical_edge(b2));
                let (a3, k) = choose|a3: int, k: int|
                    0 <= a3 < w0.archetypes@.len() && 0 <= k < w0.archetypes@[a3].add_edges@.len()
                        && #[trigger] w0.archetypes@[a3].add_edges@[k] == (
                    w0.archetypes@[b2].sig@.last(),
                    b2 as usize,
                    );
                assert(f.archetypes@[a3].add_edges@[k] == (
                    f.archetypes@[b2].sig@.last(),
                    b2 as usize,
                ));
            }
            assert forall|e2: int|
                0 <= e2 < f.index@.len() && f.index@[e2] is Some implies #[trigger] f.record_ok(
                e2,
            ) by {
                if e2 == e as int {
                    assert(f.index@[e2] == Some(Record { archetype: dest, row }));
                    assert(f.archetypes@[dest as int].entities@[row as int] == e);
                } else {
                    assert(f.index@[e2] == w0.index@[e2]);
                    assert(w0.record_ok(e2));
                    let r2 = w0.index@[e2].unwrap();
                    if r2.archetype == dest {
                        assert(f.archetypes@[dest as int].entities@[r2.row as int]
                            == arch0.entities@[r2.row as int]);
                    } else {
                        assert(f.archetypes@[r2.archetype as int].entities@ == w0.archetypes@[r2
                            .archetype as int].entities@);
                    }
                }
            }
            assert forall|a2: int, row2: int|
                0 <= a2 < f.archetypes@.len() && 0 <= row2
                    < f.archetypes@[a2].entities@.len() implies #[trigger] f.row_ok(a2, row2) by {
                if a2 == dest as int && row2 == row as int {
                    assert(f.archetypes@[a2].entities@[row2] == e);
                    assert(f.index@[e as int] == Some(Record { archetype: dest, row }));
                } else {
                    let e2 = if a2 == dest as int {
                        arch0.entities@[row2]
                    } else {
                        w0.archetypes@[a2].entities@[row2]
                    };
                    assert(f.archetypes@[a2].entities@[row2] == e2);
                    assert(w0.row_ok(a2, row2));
                    assert(w0.index@[e2 as int] is Some);
                    assert(e2 != e);
                    assert(f.index@[e2 as int] == w0.index@[e2 as int]);
                }
            }
            // The attached entity's components are the given values.
            assert(f.record_of(e) == Record { archetype: dest, row });
            assert(f.sig_of(e) == arch0.sig@);
            assert(sorted(arch0.sig@));
            assert forall|k: int| 0 <= k < vals@.len() implies f.id_comps(e)[arch0.sig@[k]]
                == vals@[k] by {
                lemma_sig_index(arch0.sig@, k);
                assert(f.archetypes@[dest as int].columns@[k]@ == arch0.columns@[k]@.push(
                    vals@[k],
                ));
                assert(f.val_of(e, arch0.sig@[k]) == vals@[k]);
                assert(f.sig_of(e).contains(arch0.sig@[k]));
            }
            // Everyone else observes the same components.
            assert forall|e2: usize| e2 != e && w0.live(e2) implies f.record_of(e2) == w0.record_of(
                e2,
            ) && f.sig_of(e2) == w0.sig_of(e2) && f.id_comps(e2) == w0.id_comps(e2) by {
                assert(w0.record_ok(e2 as int));
                let r2 = w0.record_of(e2);
                assert(f.record_of(e2) == r2);
                if r2.archetype == dest {
                    assert(f.sig_of(e2) == arch0.sig@);
                    assert forall|id: usize| w0.sig_of(e2).contains(id) implies f.val_of(e2, id)
                        == w0.val_of(e2, id) by {
                        lemma_sig_index_of(arch0.sig@, id);
                        let kk = sig_index(arch0.sig@, id);
                        assert(f.archetypes@[dest as int].columns@[kk]@ == arch0.columns@[kk]@.push(
                            vals@[kk],
                        ));
                        assert(f.archetypes@[dest as int].columns@[kk]@[r2.row as int]
                            == arch0.columns@[kk]@[r2.row as int]);
                    }
                    assert(f.id_comps(e2) =~= w0.id_comps(e2));
                } else {
                    World::lemma_same_entity_view(w0, f, e2);
                }
            }
        }
    }

    /// A new entity: the next unused id, placed in the root archetype with an
    /// empty row. The id is never reused, even after the entity is destroyed.
    pub fn create_entity(&mut self) -> (e: usize)
        requires
            old(self).wf(),
        ensures
            final(self).wf(),
            (e as int) == old(self).num_entities(),
            final(self).num_entities() == old(self).num_entities() + 1,
            final(self).live(e),
            !old(self).live(e),
            final(self).sig_of(e) == Seq::<usize>::empty(),
            final(self).id_comps(e) == Map::<usize, u64>::empty(),
            forall|e2: usize| e2 != e ==> final(self).live(e2) == old(self).live(e2),
            forall|e2: usize|
                e2 != e && old(self).live(e2) ==> final(self).record_of(e2) == old(self).record_of(
                    e2,
                ) && final(self).sig_of(e2) == old(self).sig_of(e2) && final(self).id_comps(e2)
                    == old(self).id_comps(e2),
            final(self).reg() == old(self).reg(),
            final(self).n_arch() == old(self).n_arch(),
            forall|a: int|
                0 <= a < old(self).n_arch() ==> final(self).arch_sig(a) == old(self).arch_sig(a),
    {
        let ghost w0 = *old(self);
        let e = self.index.len();
        self.index.push(None);
        proof {
            let m = *self;
            assert forall|e2: int|
                0 <= e2 < m.index@.len() && m.index@[e2] is Some implies #[trigger] m.record_ok(
                e2,
            ) by {
                assert(e2 < w0.index@.len());
                assert(w0.record_ok(e2));
            }
            assert forall|a2: int, row2: int|
                0 <= a2 < m.archetypes@.len() && 0 <= row2
                    < m.archetypes@[a2].entities@.len() implies #[trigger] m.row_ok(a2, row2) by {
                assert(w0.row_ok(a2, row2));
                let e2 = w0.archetypes@[a2].entities@[row2];
                assert(m.index@[e2 as int] == w0.index@[e2 as int]);
            }
            assert forall|a2: int, k: int|
                0 <= a2 < m.archetypes@.len() && 0 <= k
                    < m.archetypes@[a2].add_edges@.len() implies #[trigger] m.add_edge_ok(
                a2,
                k,
            ) by {
                assert(w0.add_edge_ok(a2, k));
            }
            assert forall|a2: int, k: int|
                0 <= a2 < m.archetypes@.len() && 0 <= k
                    < m.archetypes@[a2].remove_edges@.len() implies #[trigger] m.remove_edge_ok(
                a2,
                k,
            ) by {
                assert(w0.remove_edge_ok(a2, k));
            }
            assert forall|b2: int|
                0 <= b2 < m.archetypes@.len() && m.archetypes@[b2].sig@.len()
                    > 0 implies #[trigger] m.canonical_edge(b2) by {
                assert(w0.canonical_edge(b2));
                let (a3, k) = choose|a3: int, k: int|
                    0 <= a3 < w0.archetypes@.len() && 0 <= k < w0.archetypes@[a3].add_edges@.len()
                        && #[trigger] w0.archetypes@[a3].add_edges@[k] == (
                    w0.archetypes@[b2].sig@.last(),
                    b2 as usize,
                    );
                assert(m.archetypes@[a3].add_edges@[k] == (
                    m.archetypes@[b2].sig@.last(),
                    b2 as usize,
                ));
            }
            assert(m.wf());
            assert(!m.live(e));
        }
        let ghost mid = *self;
        let empty_vals: Vec<u64> = Vec::new();
        self.attach_row(e, 0, &empty_vals);
        proof {
            let f = *self;
            assert(f.sig_of(e) == mid.arch_sig(0));
            assert(f.sig_of(e) =~= Seq::<usize>::empty());
            assert(f.id_comps(e) =~= Map::<usize, u64>::empty());
            assert forall|e2: usize| e2 != e && w0.live(e2) implies f.record_of(e2) == w0.record_of(
                e2,
            ) && f.sig_of(e2) == w0.sig_of(e2) && f.id_comps(e2) == w0.id_comps(e2) by {
                assert(mid.live(e2));
                assert(mid.record_of(e2) == w0.record_of(e2));
                World::lemma_same_entity_view(w0, mid, e2);
            }
        }
        e
    }

    /// Attach a component of type `tag` with value `v` to entity `e`,
    /// registering the tag if it is new. The entity's row moves, by value, to
    /// the archetype whose signature is its current one plus the new type;
    /// its index entry is updated last. Adding a type the entity already has
    /// is rejected and changes nothing.
    pub fn add_component(&mut self, e: usize, tag: u64, v: u64) -> (r: Result<(), EcsError>)
        requires
            old(self).wf(),
        ensures
            final(self).wf(),
            match r {
                Ok(()) => {
                    &&& old(self).live(e)
                    &&& !old(self).spec_has(e, tag)
                    &&& final(self).registered(tag)
                    &&& final(self).reg() == if old(self).registered(tag) {
                        old(self).reg()
                    } else {
                        old(self).reg().push(tag)
                    }
                    &&& final(self).live(e)
                    &&& final(self).id_comps(e) == old(self).id_comps(e).insert(
                        final(self).tag_id(tag),
                        v,
                    )
                    &&& forall|e2: usize| e2 != e ==> final(self).live(e2) == old(self).live(e2)
                    &&& forall|e2: usize|
                        e2 != e && old(self).live(e2) ==> final(self).sig_of(e2)
                            == old(self).sig_of(e2) && final(self).id_comps(e2)
                            == old(self).id_comps(e2)
                    &&& final(self).num_entities() == old(self).num_entities()
                    &&& final(self).n_arch() >= old(self).n_arch()
                    &&& forall|a: int|
                        0 <= a < old(self).n_arch() ==> final(self).arch_sig(a)
                            == old(self).arch_sig(a)
                    &&& forall|t2: u64|
                        old(self).registered(t2) ==> final(self).registered(t2)
                            && final(self).tag_id(t2) == old(self).tag_id(t2)
                },
                Err(EcsError::EntityNotFound) => !old(self).live(e) && *final(self) == *old(self),
                Err(EcsError::DuplicateComponent) => old(self).live(e) && old(self).spec_has(
                    e,
                    tag,
                ) && *final(self) == *old(self),
                Err(_) => false,
            },
    {
        let ghost w0 = *old(self);
        if e >= self.index.len() {
            return Err(EcsError::EntityNotFound);
        }
        let rec = match self.index[e] {
            Some(rec) => rec,
            None => {
                return Err(EcsError::EntityNotFound);
            },
        };
        proof {
            assert(w0.record_ok(e as int));
        }
        let a = rec.archetype;
        let id = self.id_for_type(tag);
        let ghost w1 = *self;
        proof {
            assert(w1.archetypes@[a as int].wf(w1.registry@.len() as int));
            assert(w1.arch_sig(a as int) == w0.arch_sig(a as int));
        }
        if sig_contains(&self.archetypes[a].sig, id) {
            proof {
                // A fresh id cannot occur in any signature, so the tag was
                // already registered and the world is unchanged.
                if !w0.registered(tag) {
                    assert(w0.archetypes@[a as int].wf(w0.registry@.len() as int));
                    assert(w0.arch_sig(a as int).contains(id));
                    let j = choose|j: int|
                        0 <= j < w0.arch_sig(a as int).len() && w0.arch_sig(a as int)[j] == id;
                    assert(false);
                }
                assert(id == w0.tag_id(tag));
                assert(w0.spec_has(e, tag));
            }
            return Err(EcsError::DuplicateComponent);
        }
        proof {
            if w0.registered(tag) {
                assert(id == w0.tag_id(tag));
                assert(!w0.spec_has(e, tag));
            }
        }
        let dest = self.with(a, id);
        let ghost w2 = *self;
        proof {
            World::lemma_graph_extended_view(w1, w2);
            let s = w1.archetypes@[a as int].sig@;
            assert(w2.arch_sig(a as int) == s);
        }
        let p = sig_position(&self.archetypes[a].sig, id);
        proof {
            let s = w1.archetypes@[a as int].sig@;
            assert forall|i: int| p <= i < s.len() implies s[i] > id by {
                assert(s.contains(s[i]));
            }
            lemma_sorted_insert(s, p as int, id);
            // The destination's signature is the source's with `id` inserted
            // at its sorted position.
            assert(w2.archetypes@[dest as int].wf(w2.registry@.len() as int));
            assert forall|x: usize|
                w2.arch_sig(dest as int).contains(x) <==> s.insert(p as int, id).contains(x) by {
                assert(w2.arch_sig(dest as int).contains(x) <==> s.contains(x) || x == id);
            }
            lemma_sorted_equal(w2.arch_sig(dest as int), s.insert(p as int, id));
            assert(w2.arch_sig(dest as int) == s.insert(p as int, id));
        }
        let mut vals = self.remove_entity_row(e);
        let ghost w3 = *self;
        let ghost vals0 = vals@;
        vals.insert(p, v);
        proof {
            assert(vals@ == vals0.insert(p as int, v));
            assert(w3.arch_sig(dest as int) == w2.arch_sig(dest as int));
            assert(w2.sig_of(e) == w1.sig_of(e));
            assert(vals0.len() == w1.sig_of(e).len());
        }
        self.attach_row(e, dest, &vals);
        proof {
            let f = *self;
            let s = w1.archetypes@[a as int].sig@;
            let d = s.insert(p as int, id);
            assert(f.sig_of(e) == d);
            // The new component map is the old one plus `id -> v`.
            assert forall|x: usize| #[trigger] f.id_comps(e).contains_key(x) implies w0.id_comps(
                e,
            ).insert(id, v).contains_key(x) by {
                assert(d.contains(x));
                assert(s.contains(x) || x == id);
                assert(w0.sig_of(e) == s);
            }
            assert forall|x: usize| #[trigger] w0.id_comps(e).insert(id, v).contains_key(
                x,
            ) implies f.id_comps(e).contains_key(x) by {
                assert(w0.sig_of(e) == s);
                assert(s.contains(x) || x == id);
                assert(d.contains(x));
            }
            assert(f.id_comps(e)[d[p as int]] == vals@[p as int]);
            assert(f.id_comps(e)[id] == v);
            assert forall|x: usize|
                f.id_comps(e).contains_key(x) && x != id implies f.id_comps(e)[x] == w0.id_comps(
                e,
            )[x] by {
                assert(s.contains(x));
                lemma_sig_index_of(s, x);
                let j = sig_index(s, x);
                assert(s[j] == x);
                assert(vals0[j] == w2.id_comps(e)[w2.sig_of(e)[j]]);
                assert(w2.sig_of(e) == s);
                assert(w2.id_comps(e) == w1.id_comps(e));
                assert(w1.id_comps(e) == w0.id_comps(e));
                if j < p as int {
                    assert(d[j] == x);
                    assert(f.id_comps(e)[d[j]] == vals@[j]);
                    assert(vals@[j] == vals0[j]);
                } else {
                    assert(d[j + 1] == x);
                    assert(f.id_comps(e)[d[j + 1]] == vals@[j + 1]);
                    assert(vals@[j + 1] == vals0[j]);
                }
            }
            assert(f.id_comps(e) =~= w0.id_comps(e).insert(id, v));
            assert(f.tag_id(tag) == w1.tag_id(tag));
            // Everyone else is untouched.
            assert forall|e2: usize| e2 != e && w0.live(e2) implies f.sig_of(e2) == w0.sig_of(e2)
                && f.id_comps(e2) == w0.id_comps(e2) by {
                assert(w1.live(e2));
                assert(w2.live(e2));
                assert(w3.live(e2));
                assert(w2.sig_of(e2) == w1.sig_of(e2));
                assert(w3.sig_of(e2) == w2.sig_of(e2));
            }
        }
        Ok(())
    }

    /// Detach entity `e`'s component of type `tag`. The entity's row moves,
    /// by value, to the archetype whose signature is its current one minus
    /// that type; all its other component values are kept.
    pub fn remove_component(&mut self, e: usize, tag: u64) -> (r: Result<(), EcsError>)
        requires
            old(self).wf(),
        ensures
            final(self).wf(),
            match r {
                Ok(()) => {
                    &&& old(self).spec_has(e, tag)
                    &&& final(self).live(e)
                    &&& final(self).id_comps(e) == old(self).id_comps(e).remove(
                        old(self).tag_id(tag),
                    )
                    &&& forall|e2: usize| e2 != e ==> final(self).live(e2) == old(self).live(e2)
                    &&& forall|e2: usize|
                        e2 != e && old(self).live(e2) ==> final(self).sig_of(e2)
                            == old(self).sig_of(e2) && final(self).id_comps(e2)
                            == old(self).id_comps(e2)
                    &&& final(self).reg() == old(self).reg()
                    &&& final(self).num_entities() == old(self).num_entities()
                    &&& final(self).n_arch() >= old(self).n_arch()
                    &&& forall|a: int|
                        0 <= a < old(self).n_arch() ==> final(self).arch_sig(a)
                            == old(self).arch_sig(a)
                },
                Err(EcsError::EntityNotFound) => !old(self).live(e) && *final(self) == *old(self),
                Err(EcsError::TypeNotRegistered) => old(self).live(e) && !old(self).registered(tag)
                    && *final(self) == *old(self),
                Err(EcsError::ComponentNotPresent) => old(self).live(e) && old(self).registered(tag)
                    && !old(self).sig_of(e).contains(old(self).tag_id(tag)) && *final(self) == *old(
                    self,
                ),
                Err(_) => false,
            },
    {
        let ghost w0 = *old(self);
        if e >= self.index.len() {
            return Err(EcsError::EntityNotFound);
        }
        let rec = match self.index[e] {
            Some(rec) => rec,
            None => {
                return Err(EcsError::EntityNotFound);
            },
        };
        proof {
            assert(w0.record_ok(e as int));
        }
        let a = rec.archetype;
        let id = match find_u64(&self.registry, tag) {
            Some(i) => i,
            None => {
                return Err(EcsError::TypeNotRegistered);
            },
        };
        proof {
            assert(w0.reg().contains(tag));
            w0.lemma_tag_id_inj(id as int, tag);
            assert(w0.archetypes@[a as int].wf(w0.registry@.len() as int));
        }
        let p = match sig_find(&self.archetypes[a].sig, id) {
            Some(p) => p,
            None => {
                return Err(EcsError::ComponentNotPresent);
            },
        };
        let dest = self.without(a, id);
        let ghost w2 = *self;
        proof {
            World::lemma_graph_extended_view(w0, w2);
            let s = w0.archetypes@[a as int].sig@;
            assert(w2.arch_sig(a as int) == s);
            lemma_sorted_remove(s, p as int);
            assert(w2.archetypes@[dest as int].wf(w2.registry@.len() as int));
            assert forall|x: usize|
                w2.arch_sig(dest as int).contains(x) <==> s.remove(p as int).contains(x) by {
                assert(w2.arch_sig(dest as int).contains(x) <==> s.contains(x) && x != id);
            }
            lemma_sorted_equal(w2.arch_sig(dest as int), s.remove(p as int));
            assert(w2.arch_sig(dest as int) == s.remove(p as int));
        }
        let mut vals = self.remove_entity_row(e);
        let ghost w3 = *self;
        let ghost vals0 = vals@;
        vals.remove(p);
        proof {
            assert(vals@ == vals0.remove(p as int));
            assert(w3.arch_sig(dest as int) == w2.arch_sig(dest as int));
            assert(w2.sig_of(e) == w0.sig_of(e));
            assert(vals0.len() == w0.sig_of(e).len());
        }
        self.attach_row(e, dest, &vals);
        proof {
            let f = *self;
            let s = w0.archetypes@[a as int].sig@;
            let d = s.remove(p as int);
            assert(f.sig_of(e) == d);
            assert(s[p as int] == id);
            // The new component map is the old one minus `id`.
            assert forall|x: usize| #[trigger] f.id_comps(e).contains_key(x) implies w0.id_comps(
                e,
            ).remove(id).contains_key(x) by {
                assert(d.contains(x));
                assert(s.contains(x) && x != id);
                assert(w0.sig_of(e) == s);
            }
            assert forall|x: usize| #[trigger] w0.id_comps(e).remove(id).contains_key(
                x,
            ) implies f.id_comps(e).contains_key(x) by {
                assert(w0.sig_of(e) == s);
                assert(s.contains(x) && x != id);
                assert(d.contains(x));
            }
            assert forall|x: usize| f.id_comps(e).contains_key(x) implies f.id_comps(e)[x]
                == w0.id_comps(e)[x] by {
                assert(d.contains(x));
                lemma_sig_index_of(d, x);
                let j = sig_index(d, x);
                assert(d[j] == x);
                assert(f.id_comps(e)[d[j]] == vals@[j]);
                assert(w2.sig_of(e) == s);
                assert(w2.id_comps(e) == w0.id_comps(e));
                if j < p as int {
                    assert(s[j] == x);
                    assert(vals@[j] == vals0[j]);
                    assert(vals0[j] == w2.id_comps(e)[w2.sig_of(e)[j]]);
                } else {
                    assert(s[j + 1] == x);
                    assert(vals@[j] == vals0[j + 1]);
                    assert(vals0[j + 1] == w2.id_comps(e)[w2.sig_of(e)[j + 1]]);
                }
            }
            assert(f.id_comps(e) =~= w0.id_comps(e).remove(id));
            // Everyone else is untouched.
            assert forall|e2: usize| e2 != e && w0.live(e2) implies f.sig_of(e2) == w0.sig_of(e2)
                && f.id_comps(e2) == w0.id_comps(e2) by {
                assert(w2.live(e2));
                assert(w3.live(e2));
                assert(w2.sig_of(e2) == w0.sig_of(e2));
                assert(w3.sig_of(e2) == w2.sig_of(e2));
            }
        }
        Ok(())
    }

    /// Destroy entity `e`: remove its row (swap-removing keeps the columns
    /// dense; the swapped entity's record is updated) and erase its index
    /// entry. The id is never handed out again.
    pub fn destroy_entity(&mut self, e: usize) -> (r: Result<(), EcsError>)
        requires
            old(self).wf(),
        ensures
            final(self).wf(),
            match r {
                Ok(()) => {
                    &&& old(self).live(e)
                    &&& !final(self).live(e)
                    &&& forall|e2: usize| e2 != e ==> final(self).live(e2) == old(self).live(e2)
                    &&& forall|e2: usize|
                        e2 != e && old(self).live(e2) ==> final(self).sig_of(e2)
                            == old(self).sig_of(e2) && final(self).id_comps(e2)
                            == old(self).id_comps(e2)
                    &&& final(self).reg() == old(self).reg()
                    &&& final(self).num_entities() == old(self).num_entities()
                    &&& final(self).n_arch() == old(self).n_arch()
                    &&& forall|a: int|
                        0 <= a < old(self).n_arch() ==> final(self).arch_sig(a)
                            == old(self).arch_sig(a)
                },
                Err(EcsError::EntityNotFound) => !old(self).live(e) && *final(self) == *old(self),
                Err(_) => false,
            },
    {
        if e >= self.index.len() {
            return Err(EcsError::EntityNotFound);
        }
        if self.index[e].is_none() {
            return Err(EcsError::EntityNotFound);
        }
        let _vals = self.remove_entity_row(e);
        Ok(())
    }

    /// Whether live entity `e`'s signature holds every id in `req`.
    pub open spec fn q_match(self, e: usize, req: Seq<usize>) -> bool {
        self.live(e) && forall|x: usize| req.contains(x) ==> self.sig_of(e).contains(x)
    }

    /// `q_match`, restricted to entities stored before archetype `a_bound`,
    /// row `row_bound`: the part of the world a query walk has passed.
    spec fn q_upto(self, e: usize, req: Seq<usize>, a_bound: int, row_bound: int) -> bool {
        self.q_match(e, req) && ((self.record_of(e).archetype as int) < a_bound || ((self.record_of(
            e,
        ).archetype as int) == a_bound && (self.record_of(e).row as int) < row_bound))
    }

    /// All entities whose signature holds every id in `required`: the
    /// archetypes whose signatures are supersets of `required` are found
    /// first, and their entity columns concatenated. Each entity appears at
    /// most once; no order is promised.
    pub fn entities_with(&self, required: &Vec<usize>) -> (res: Vec<usize>)
        requires
            self.wf(),
        ensures
            forall|e: usize| res@.contains(e) <==> self.q_match(e, required@),
            forall|i: int, j: int| 0 <= i < j < res@.len() ==> res@[i] != res@[j],
    {
        let mut res: Vec<usize> = Vec::new();
        let mut a: usize = 0;
        while a < self.archetypes.len()
            invariant
                self.wf(),
                a <= self.archetypes@.len(),
                forall|e: usize| res@.contains(e) <==> self.q_upto(e, required@, a as int, 0),
                forall|i: int, j: int| 0 <= i < j < res@.len() ==> res@[i] != res@[j],
            decreases self.archetypes@.len() - a,
        {
            proof {
                assert(self.archetypes@[a as int].wf(self.registry@.len() as int));
            }
            if sig_superset(&self.archetypes[a].sig, required) {
                let n_rows = self.archetypes[a].entities.len();
                let mut row: usize = 0;
                while row < n_rows
                    invariant
                        self.wf(),
                        (a as int) < self.archetypes@.len(),
                        n_rows == self.archetypes@[a as int].entities@.len(),
                        row <= n_rows,
                        forall|x: usize|
                            required@.contains(x) ==> self.arch_sig(a as int).contains(x),
                        forall|e: usize|
                            res@.contains(e) <==> self.q_upto(e, required@, a as int, row as int),
                        forall|i: int, j: int| 0 <= i < j < res@.len() ==> res@[i] != res@[j],
                    decreases n_rows - row,
                {
                    let e_new = self.archetypes[a].entities[row];
                    proof {
                        assert(self.row_ok(a as int, row as int));
                        assert(self.live(e_new));
                        assert(self.record_of(e_new) == Record { archetype: a, row });
                        assert(self.sig_of(e_new) == self.arch_sig(a as int));
                        assert(self.q_match(e_new, required@));
                        assert(!self.q_upto(e_new, required@, a as int, row as int));
                        assert(!res@.contains(e_new));
                    }
                    let ghost res0 = res@;
                    res.push(e_new);
                    proof {
                        assert(res@ == res0.push(e_new));
                        assert forall|e: usize| res@.contains(e) <==> self.q_upto(
                            e,
                            required@,
                            a as int,
                            row as int + 1,
                        ) by {
                            if res@.contains(e) {
                                let j = choose|j: int| 0 <= j < res@.len() && res@[j] == e;
                                if j < res0.len() {
                                    assert(res0[j] == e);
                                    assert(res0.contains(e));
                                } else {
                                    assert(e == e_new);
                                }
                            }
                            if self.q_upto(e, required@, a as int, row as int + 1) {
                                if self.record_of(e) == (Record { archetype: a, row }) {
                                    assert(self.record_ok(e as int));
                                    assert(e == e_new);
                                    assert(res@[res@.len() - 1] == e);
                                } else {
                                    assert(self.q_upto(e, required@, a as int, row as int));
                                    assert(res0.contains(e));
                                    let j = choose|j: int| 0 <= j < res0.len() && res0[j] == e;
                                    assert(res@[j] == e);
                                }
                            }
                        }
                        assert forall|i: int, j: int|
                            0 <= i < j < res@.len() implies res@[i] != res@[j] by {
                            if j < res0.len() {
                                assert(res0[i] != res0[j]);
                            } else {
                                assert(res@[j] == e_new);
                                assert(res@[i] == res0[i]);
                                if res0[i] == e_new {
                                    assert(res0.contains(e_new));
                                    assert(false);
                                }
                            }
                        }
                    }
                    row = row + 1;
                }
                proof {
                    assert forall|e: usize|
                        self.q_upto(e, required@, a as int, n_rows as int) <==> self.q_upto(
                            e,
                            required@,
                            a as int + 1,
                            0,
                        ) by {
                        if self.q_match(e, required@) {
                            assert(self.record_ok(e as int));
                        }
                    }
                }
            } else {
                proof {
                    assert forall|e: usize|
                        self.q_upto(e, required@, a as int, 0) <==> self.q_upto(
                            e,
                            required@,
                            a as int + 1,
                            0,
                        ) by {
                        if self.q_match(e, required@) {
                            assert(self.record_ok(e as int));
                            if (self.record_of(e).archetype as int) == a as int {
                                assert(self.sig_of(e) == self.arch_sig(a as int));
                                assert(false);
                            }
                        }
                    }
                }
            }
            a = a + 1;
        }
        proof {
            assert forall|e: usize|
                self.q_upto(e, required@, self.archetypes@.len() as int, 0) <==> self.q_match(
                    e,
                    required@,
                ) by {
                if self.q_match(e, required@) {
                    assert(self.record_ok(e as int));
                }
            }
        }
        res
    }

    /// All entities that currently have a component of every type in
    /// `required`. Duplicate tags are harmless; a tag never seen by the
    /// registry is on no entity, so it makes the result empty. Each entity
    /// appears at most once; no order is promised.
    pub fn query(&self, required: &Vec<u64>) -> (res: Vec<usize>)
        requires
            self.wf(),
        ensures
            forall|e: usize|
                res@.contains(e) <==> (self.live(e) && forall|t: u64|
                    required@.contains(t) ==> self.spec_has(e, t)),
            forall|i: int, j: int| 0 <= i < j < res@.len() ==> res@[i] != res@[j],
    {
        let mut ids: Vec<usize> = Vec::new();
        let mut k: usize = 0;
        while k < required.len()
            invariant
                self.wf(),
                k <= required@.len(),
                ids@.len() == k,
                forall|j: int|
                    0 <= j < k ==> (#[trigger] ids@[j] as int) < self.reg().len()
                        && self.reg()[ids@[j] as int] == required@[j],
            decreases required@.len() - k,
        {
            let t = required[k];
            match find_u64(&self.registry, t) {
                Some(i) => {
                    let ghost ids0 = ids@;
                    ids.push(i);
                    proof {
                        assert forall|j: int|
                            0 <= j < k as int + 1 implies (#[trigger] ids@[j] as int)
                            < self.reg().len() && self.reg()[ids@[j] as int] == required@[j] by {
                            if j < k as int {
                                assert(ids@[j] == ids0[j]);
                            } else {
                                assert(ids@[j] == i);
                                assert(required@[j] == t);
                            }
                        }
                    }
                },
                None => {
                    let empty_res: Vec<usize> = Vec::new();
                    proof {
                        assert(required@.contains(required@[k as int]));
                        assert forall|e: usize|
                            !(self.live(e) && (forall|t2: u64|
                                required@.contains(t2) ==> self.spec_has(e, t2))) by {
                            if self.live(e) && (forall|t2: u64|
                                required@.contains(t2) ==> self.spec_has(e, t2)) {
                                assert(self.spec_has(e, t));
                                assert(false);
                            }
                        }
                    }
                    return empty_res;
                },
            }
            k = k + 1;
        }
        let res = self.entities_with(&ids);
        proof {
            assert forall|e: usize|
                self.q_match(e, ids@) <==> (self.live(e) && (forall|t: u64|
                    required@.contains(t) ==> self.spec_has(e, t))) by {
                if self.q_match(e, ids@) {
                    assert forall|t: u64| required@.contains(t) implies self.spec_has(e, t) by {
                        let j = choose|j: int| 0 <= j < required@.len() && required@[j] == t;
                        assert((ids@[j] as int) < self.reg().len() && self.reg()[ids@[j] as int]
                            == required@[j]);
                        self.lemma_tag_id_inj(ids@[j] as int, t);
                        assert(ids@.contains(ids@[j]));
                        assert(self.sig_of(e).contains(self.tag_id(t)));
                    }
                }
                if self.live(e) && (forall|t: u64| required@.contains(t) ==> self.spec_has(e, t)) {
                    assert forall|x: usize| ids@.contains(x) implies self.sig_of(e).contains(x) by {
                        let j = choose|j: int| 0 <= j < ids@.len() && ids@[j] == x;
                        assert((ids@[j] as int) < self.reg().len() && self.reg()[ids@[j] as int]
                            == required@[j]);
                        self.lemma_tag_id_inj(ids@[j] as int, required@[j]);
                        assert(required@.contains(required@[j]));
                        assert(self.spec_has(e, required@[j]));
                        assert(x == self.tag_id(required@[j]));
                    }
                }
            }
        }
        res
    }

    /// The record of entity `e`: which archetype and row hold its data.
    pub fn lookup(&self, e: usize) -> (r: Result<Record, EcsError>)
        requires
            self.wf(),
        ensures
            match r {
                Ok(rec) => self.live(e) && rec == self.record_of(e),
                Err(EcsError::EntityNotFound) => !self.live(e),
                Err(_) => false,
            },
    {
        if e >= self.index.len() {
            return Err(EcsError::EntityNotFound);
        }
        match self.index[e] {
            Some(rec) => Ok(rec),
            None => Err(EcsError::EntityNotFound),
        }
    }

    /// The entity occupying one row of one archetype, if that archetype and
    /// row exist: the entity-id column that records, for every row, who owns
    /// it.
    pub fn entity_at(&self, archetype: usize, row: usize) -> (r: Option<usize>)
        requires
            self.wf(),
        ensures
            match r {
                Some(e) => (archetype as int) < self.n_arch() && (row as int) < self.arch_entities(
                    archetype as int,
                ).len() && e == self.arch_entities(archetype as int)[row as int],
                None => (archetype as int) >= self.n_arch() || (row as int)
                    >= self.arch_entities(archetype as int).len(),
            },
    {
        if archetype >= self.archetypes.len() {
            return None;
        }
        if row >= self.archetypes[archetype].entities.len() {
            return None;
        }
        Some(self.archetypes[archetype].entities[row])
    }

    /// The entity's current signature, as component-type ids.
    pub fn signature_of(&self, e: usize) -> (r: Result<Vec<usize>, EcsError>)
        requires
            self.wf(),
        ensures
            match r {
                Ok(s) => self.live(e) && s@ == self.sig_of(e),
                Err(EcsError::EntityNotFound) => !self.live(e),
                Err(_) => false,
            },
    {
        if e >= self.index.len() {
            return Err(EcsError::EntityNotFound);
        }
        let rec = match self.index[e] {
            Some(rec) => rec,
            None => {
                return Err(EcsError::EntityNotFound);
            },
        };
        proof {
            assert(self.record_ok(e as int));
        }
        Ok(copy_ids(&self.archetypes[rec.archetype].sig))
    }

    /// Whether entity `e` currently has a component of type `tag`. A
    /// destroyed or never-created entity has no components, and an
    /// unregistered tag is on no entity.
    pub fn has_component(&self, e: usize, tag: u64) -> (r: bool)
        requires
            self.wf(),
        ensures
            r == self.spec_has(e, tag),
    {
        if e >= self.index.len() {
            return false;
        }
        let rec = match self.index[e] {
            Some(rec) => rec,
            None => {
                return false;
            },
        };
        let id = match find_u64(&self.registry, tag) {
            Some(i) => i,
            None => {
                return false;
            },
        };
        proof {
            assert(self.record_ok(e as int));
            assert(self.reg().contains(tag));
            self.lemma_tag_id_inj(id as int, tag);
            assert(self.archetypes@[rec.archetype as int].wf(self.registry@.len() as int));
        }
        sig_contains(&self.archetypes[rec.archetype].sig, id)
    }

    /// The value of entity `e`'s component of type `tag`. Reads are by
    /// value: together with [`World::set_component`] this stands in for a
    /// scoped access handle, which could never be allowed to outlive a
    /// structural move of the row.
    pub fn get_component(&self, e: usize, tag: u64) -> (r: Result<u64, EcsError>)
        requires
            self.wf(),
        ensures
            match r {
                Ok(v) => self.spec_has(e, tag) && v == self.id_comps(e)[self.tag_id(tag)],
                Err(EcsError::EntityNotFound) => !self.live(e),
                Err(EcsError::ComponentNotPresent) => self.live(e) && !self.spec_has(e, tag),
                Err(_) => false,
            },
    {
        if e >= self.index.len() {
            return Err(EcsError::EntityNotFound);
        }
        let rec = match self.index[e] {
            Some(rec) => rec,
            None => {
                return Err(EcsError::EntityNotFound);
            },
        };
        let id = match find_u64(&self.registry, tag) {
            Some(i) => i,
            None => {
                return Err(EcsError::ComponentNotPresent);
            },
        };
        proof {
            assert(self.record_ok(e as int));
            assert(self.reg().contains(tag));
            self.lemma_tag_id_inj(id as int, tag);
            assert(self.archetypes@[rec.archetype as int].wf(self.registry@.len() as int));
        }
        let k = match sig_find(&self.archetypes[rec.archetype].sig, id) {
            Some(k) => k,
            None => {
                return Err(EcsError::ComponentNotPresent);
            },
        };
        let v = self.archetypes[rec.archetype].columns[k][rec.row];
        proof {
            let s = self.archetypes@[rec.archetype as int].sig@;
            lemma_sig_index(s, k as int);
            assert(s.contains(id));
            assert(self.val_of(e, id) == v);
            assert(self.id_comps(e)[id] == v);
        }
        Ok(v)
    }

    /// Overwrite the value of entity `e`'s component of type `tag`. This is
    /// the write path of component access: a value update, never a
    /// structural change.
    pub fn set_component(&mut self, e: usize, tag: u64, v: u64) -> (r: Result<(), EcsError>)
        requires
            old(self).wf(),
        ensures
            final(self).wf(),
            match r {
                Ok(()) => {
                    &&& old(self).spec_has(e, tag)
                    &&& final(self).live(e)
                    &&& final(self).record_of(e) == old(self).record_of(e)
                    &&& final(self).sig_of(e) == old(self).sig_of(e)
                    &&& final(self).id_comps(e) == old(self).id_comps(e).insert(
                        old(self).tag_id(tag),
                        v,
                    )
                    &&& forall|e2: usize| e2 != e ==> final(self).live(e2) == old(self).live(e2)
                    &&& forall|e2: usize|
                        e2 != e && old(self).live(e2) ==> final(self).record_of(e2)
                            == old(self).record_of(e2) && final(self).sig_of(e2)
                            == old(self).sig_of(e2) && final(self).id_comps(e2)
                            == old(self).id_comps(e2)
                    &&& final(self).reg() == old(self).reg()
                    &&& final(self).num_entities() == old(self).num_entities()
                    &&& final(self).n_arch() == old(self).n_arch()
                    &&& forall|a: int|
                        0 <= a < old(self).n_arch() ==> final(self).arch_sig(a)
                            == old(self).arch_sig(a)
                },
                Err(EcsError::EntityNotFound) => !old(self).live(e) && *final(self) == *old(self),
                Err(EcsError::ComponentNotPresent) => old(self).live(e) && !old(self).spec_has(
                    e,
                    tag,
                ) && *final(self) == *old(self),
                Err(_) => false,
            },
    {
        let ghost w0 = *old(self);
        if e >= self.index.len() {
            return Err(EcsError::EntityNotFound);
        }
        let rec = match self.index[e] {
            Some(rec) => rec,
            None => {
                return Err(EcsError::EntityNotFound);
            },
        };
        let id = match find_u64(&self.registry, tag) {
            Some(i) => i,
            None => {
                return Err(EcsError::ComponentNotPresent);
            },
        };
        proof {
            assert(w0.record_ok(e as int));
            assert(w0.reg().contains(tag));
            w0.lemma_tag_id_inj(id as int, tag);
            assert(w0.archetypes@[rec.archetype as int].wf(w0.registry@.len() as int));
        }
        let a = rec.archetype;
        let row = rec.row;
        let k = match sig_find(&self.archetypes[a].sig, id) {
            Some(k) => k,
            None => {
                return Err(EcsError::ComponentNotPresent);
            },
        };
        let arch = &mut self.archetypes[a];
        let col = &mut arch.columns[k];
        col[row] = v;
        proof {
            let f = *self;
            let arch0 = w0.archetypes@[a as int];
            let s = arch0.sig@;
            lemma_sig_index(s, k as int);
            assert(f.index@ == w0.index@);
            assert(f.registry@ == w0.registry@);
            assert(f.archetypes@.len() == w0.archetypes@.len());
            assert forall|a2: int| 0 <= a2 < f.archetypes@.len() && a2 != a as int implies (
            #[trigger] f.archetypes@[a2]) == w0.archetypes@[a2] by {}
            assert(f.archetypes@[a as int].sig@ == arch0.sig@);
            assert(f.archetypes@[a as int].entities@ == arch0.entities@);
            assert(f.archetypes@[a as int].add_edges@ == arch0.add_edges@);
            assert(f.archetypes@[a as int].remove_edges@ == arch0.remove_edges@);
            assert(f.archetypes@[a as int].columns@.len() == arch0.columns@.len());
            assert(f.archetypes@[a as int].columns@[k as int]@ == arch0.columns@[k as int]@.update(
                row as int,
                v,
            ));
            assert forall|kk: int|
                0 <= kk < arch0.columns@.len() && kk != k as int implies (#[trigger] f.archetypes@[a
                as int].columns@[kk])@ == arch0.columns@[kk]@ by {}
            // Well-formedness.
            assert forall|a2: int| 0 <= a2 < f.archetypes@.len() implies (
            #[trigger] f.archetypes@[a2]).wf(f.registry@.len() as int) by {
                assert(w0.archetypes@[a2].wf(w0.registry@.len() as int));
                if a2 == a as int {
                    assert(lockstep(f.archetypes@[a2]));
                }
            }
            assert forall|a1: int, a2: int|
                0 <= a1 < f.archetypes@.len() && 0 <= a2 < f.archetypes@.len() && a1
                    != a2 implies #[trigger] f.archetypes@[a1].sig@
                != #[trigger] f.archetypes@[a2].sig@ by {
                assert(w0.archetypes@[a1].sig@ != w0.archetypes@[a2].sig@);
                assert(f.archetypes@[a1].sig@ == w0.archetypes@[a1].sig@);
                assert(f.archetypes@[a2].sig@ == w0.archetypes@[a2].sig@);
            }
            assert forall|a2: int, kk: int|
                0 <= a2 < f.archetypes@.len() && 0 <= kk
                    < f.archetypes@[a2].add_edges@.len() implies #[trigger] f.add_edge_ok(
                a2,
                kk,
            ) by {
                assert(f.archetypes@[a2].add_edges@ == w0.archetypes@[a2].add_edges@);
                assert(w0.add_edge_ok(a2, kk));
                let b = w0.archetypes@[a2].add_edges@[kk].1;
                assert(f.archetypes@[b as int].sig@ == w0.archetypes@[b as int].sig@);
                assert(f.archetypes@[a2].sig@ == w0.archetypes@[a2].sig@);
            }
            assert forall|a2: int, kk: int|
                0 <= a2 < f.archetypes@.len() && 0 <= kk
                    < f.archetypes@[a2].remove_edges@.len() implies #[trigger] f.remove_edge_ok(
                a2,
                kk,
            ) by {
                assert(f.archetypes@[a2].remove_edges@ == w0.archetypes@[a2].remove_edges@);
                assert(w0.remove_edge_ok(a2, kk));
                let b = w0.archetypes@[a2].remove_edges@[kk].1;
                assert(f.archetypes@[b as int].sig@ == w0.archetypes@[b as int].sig@);
                assert(f.archetypes@[a2].sig@ == w0.archetypes@[a2].sig@);
            }
            assert forall|b2: int|
                0 <= b2 < f.archetypes@.len() && f.archetypes@[b2].sig@.len()
                    > 0 implies #[trigger] f.canonical_edge(b2) by {
                assert(f.archetypes@[b2].sig@ == w0.archetypes@[b2].sig@);
                assert(w0.canonical_edge(b2));
                let (a3, kk) = choose|a3: int, kk: int|
                    0 <= a3 < w0.archetypes@.len() && 0 <= kk < w0.archetypes@[a3].add_edges@.len()
                        && #[trigger] w0.archetypes@[a3].add_edges@[kk] == (
                    w0.archetypes@[b2].sig@.last(),
                    b2 as usize,
                    );
                assert(f.archetypes@[a3].add_edges@[kk] == (
                    f.archetypes@[b2].sig@.last(),
                    b2 as usize,
                ));
            }
            assert forall|e2: int|
                0 <= e2 < f.index@.len() && f.index@[e2] is Some implies #[trigger] f.record_ok(
                e2,
            ) by {
                assert(w0.record_ok(e2));
                let r2 = w0.index@[e2].unwrap();
                assert(f.archetypes@[r2.archetype as int].entities@ == w0.archetypes@[r2.archetype
                    as int].entities@);
            }
            assert forall|a2: int, row2: int|
                0 <= a2 < f.archetypes@.len() && 0 <= row2
                    < f.archetypes@[a2].entities@.len() implies #[trigger] f.row_ok(a2, row2) by {
                assert(f.archetypes@[a2].entities@ == w0.archetypes@[a2].entities@);
                assert(w0.row_ok(a2, row2));
            }
            // The updated entity's map gains exactly the new value.
            assert(f.record_of(e) == w0.record_of(e));
            assert(f.sig_of(e) == w0.sig_of(e));
            assert forall|x: usize| w0.sig_of(e).contains(x) implies f.val_of(e, x) == (
            if x == id {
                v
            } else {
                w0.val_of(e, x)
            }) by {
                lemma_sig_index_of(s, x);
                let kk = sig_index(s, x);
                if x == id {
                    assert(kk == k as int);
                } else {
                    lemma_sorted_index_unique(s, kk, kk);
                    assert(kk != k as int);
                    assert(f.archetypes@[a as int].columns@[kk]@ == arch0.columns@[kk]@);
                }
            }
            assert(s.contains(id));
            assert(f.id_comps(e) =~= w0.id_comps(e).insert(id, v));
            // Everyone else observes the same components.
            assert forall|e2: usize| e2 != e && w0.live(e2) implies f.record_of(e2) == w0.record_of(
                e2,
            ) && f.sig_of(e2) == w0.sig_of(e2) && f.id_comps(e2) == w0.id_comps(e2) by {
                assert(w0.record_ok(e2 as int));
                let r2 = w0.record_of(e2);
                assert(f.record_of(e2) == r2);
                if r2.archetype == a {
                    assert(r2.row != row);
                    assert(f.sig_of(e2) == s);
                    assert forall|x: usize| w0.sig_of(e2).contains(x) implies f.val_of(e2, x)
                        == w0.val_of(e2, x) by {
                        lemma_sig_index_of(s, x);
                        let kk = sig_index(s, x);
                        if kk == k as int {
                            assert(f.archetypes@[a as int].columns@[kk]@[r2.row as int]
                                == arch0.columns@[kk]@[r2.row as int]);
                        } else {
                            assert(f.archetypes@[a as int].columns@[kk]@ == arch0.columns@[kk]@);
                        }
                    }
                    assert(f.id_comps(e2) =~= w0.id_comps(e2));
                } else {
                    World::lemma_same_entity_view(w0, f, e2);
                }
            }
        }
        Ok(())
    }
}

// The laws of the engine: properties that relate several operations, stated
// over the same spec functions the operations' contracts use and proved from
// the structure `wf` maintains.
impl World {
    /// Round trip: adding a component of a type the entity does not have and
    /// then removing that same type restores the entity's component map
    /// exactly — same signature, same values for every other type.
    ///
    /// `add_component(e, tag, v)` returning `Ok` on `w0` yields a world `w1`
    /// satisfying every hypothesis below, and `remove_component(e, tag)`
    /// returning `Ok` on `w1` yields a world whose component map for `e` is
    /// `w1.id_comps(e).remove(w1.tag_id(tag))` — by this lemma, exactly
    /// `w0.id_comps(e)`. Both contracts leave every other entity untouched.
    pub proof fn lemma_round_trip(w0: World, w1: World, e: usize, tag: u64, v: u64)
        requires
            w0.wf(),
            w1.wf(),
            w0.live(e),
            !w0.spec_has(e, tag),
            w1.registered(tag),
            w1.reg() == if w0.registered(tag) {
                w0.reg()
            } else {
                w0.reg().push(tag)
            },
            w1.id_comps(e) == w0.id_comps(e).insert(w1.tag_id(tag), v),
        ensures
            w1.id_comps(e).remove(w1.tag_id(tag)) == w0.id_comps(e),
    {
        let id = w1.tag_id(tag);
        assert(!w0.id_comps(e).contains_key(id)) by {
            assert(w0.record_ok(e as int));
            if w0.registered(tag) {
                assert(w1.reg() == w0.reg());
                assert(id == w0.tag_id(tag));
                assert(!w0.sig_of(e).contains(id));
            } else {
                assert(w0.registry.len() == w0.registry@.len());
                w1.lemma_tag_id_inj(w0.reg().len() as int, tag);
                assert(id as int == w0.num_types());
                let a = w0.record_of(e).archetype;
                assert(w0.archetypes@[a as int].wf(w0.registry@.len() as int));
                if w0.sig_of(e).contains(id) {
                    let j = choose|j: int|
                        0 <= j < w0.sig_of(e).len() && w0.sig_of(e)[j] == id;
                    assert(false);
                }
            }
        }
        assert(w1.id_comps(e).remove(id) =~= w0.id_comps(e));
    }

    /// Attaching two distinct component types in either order leaves the
    /// entity with the same set of component types — the domain of its
    /// component map after the two inserts `add_component`'s contract
    /// promises does not depend on their order.
    pub proof fn lemma_add_order_same_dom(m: Map<usize, u64>, a: usize, b: usize, x: u64, y: u64)
        requires
            a != b,
        ensures
            m.insert(a, x).insert(b, y).dom() == m.insert(b, y).insert(a, x).dom(),
    {
        assert(m.insert(a, x).insert(b, y).dom() =~= m.insert(b, y).insert(a, x).dom());
    }

    /// Order-independence of archetype identity: a live entity's archetype
    /// is determined by the set of component types it has. Two entities that
    /// ended up with the same set — in whatever order the components were
    /// added — live in the very same archetype node.
    pub proof fn lemma_archetype_order_independent(w: World, e1: usize, e2: usize)
        requires
            w.wf(),
            w.live(e1),
            w.live(e2),
            w.id_comps(e1).dom() == w.id_comps(e2).dom(),
        ensures
            w.record_of(e1).archetype == w.record_of(e2).archetype,
    {
        assert(w.record_ok(e1 as int));
        assert(w.record_ok(e2 as int));
        let a1 = w.record_of(e1).archetype;
        let a2 = w.record_of(e2).archetype;
        assert forall|x: usize|
            w.arch_sig(a1 as int).contains(x) <==> w.arch_sig(a2 as int).contains(x) by {
            assert(w.id_comps(e1).dom().contains(x) == w.id_comps(e2).dom().contains(x));
            assert(w.id_comps(e1).contains_key(x) <==> w.sig_of(e1).contains(x));
            assert(w.id_comps(e2).contains_key(x) <==> w.sig_of(e2).contains(x));
        }
        w.lemma_sig_unique(a1 as int, a2 as int);
    }

    /// Graph inverse: following the add edge for `t` from archetype `x` and
    /// then the remove edge for `t` from the archetype reached leads back to
    /// `x` itself — `without(with(x, t), t) == x`, as handles, not merely as
    /// equal signatures.
    ///
    /// `with(x, t)` on `w0` returning `y` yields a world `w1` satisfying the
    /// hypotheses on `(w0, w1, y)`, and `without(y, t)` on `w1` returning
    /// `z` yields a world `w2` satisfying those on `(w1, w2, z)`.
    pub proof fn lemma_graph_inverse(
        w0: World,
        w1: World,
        w2: World,
        x: usize,
        y: usize,
        z: usize,
        t: usize,
    )
        requires
            w0.wf(),
            w2.wf(),
            (x as int) < w0.n_arch(),
            !w0.arch_sig(x as int).contains(t),
            World::graph_extended(w0, w1),
            (y as int) < w1.n_arch(),
            sig_plus(w0.arch_sig(x as int), w1.arch_sig(y as int), t),
            World::graph_extended(w1, w2),
            (z as int) < w2.n_arch(),
            sig_minus(w1.arch_sig(y as int), w2.arch_sig(z as int), t),
        ensures
            z == x,
    {
        assert(w2.arch_sig(x as int) == w0.arch_sig(x as int));
        assert forall|u: usize|
            w2.arch_sig(z as int).contains(u) <==> w2.arch_sig(x as int).contains(u) by {
            assert(w2.arch_sig(z as int).contains(u) <==> w1.arch_sig(y as int).contains(u) && u
                != t);
            assert(w1.arch_sig(y as int).contains(u) <==> w0.arch_sig(x as int).contains(u) || u
                == t);
        }
        w2.lemma_sig_unique(z as int, x as int);
    }

    /// Index consistency: for every live entity, the archetype its record
    /// points at really owns it — the entity-id column at the recorded row
    /// holds exactly this entity. Every operation of the engine preserves
    /// `wf`, so this holds after any sequence of creates, component adds and
    /// removes, and destroys.
    pub proof fn lemma_index_consistency(w: World, e: usize)
        requires
            w.wf(),
            w.live(e),
        ensures
            (w.record_of(e).archetype as int) < w.n_arch(),
            (w.record_of(e).row as int) < w.arch_entities(w.record_of(e).archetype as int).len(),
            w.arch_entities(w.record_of(e).archetype as int)[w.record_of(e).row as int] == e,
    {
        assert(w.record_ok(e as int));
    }

    /// Swap-remove correctness: destroying one entity leaves every other
    /// live entity with exactly the same component values, and — since the
    /// destroyed world is well-formed again — with a valid record pointing
    /// at the row that now holds its data. Swap-removal reorders rows but
    /// never corrupts a survivor.
    ///
    /// `destroy_entity(e)` returning `Ok` on `w0` yields a world `w1`
    /// satisfying every hypothesis below.
    pub proof fn lemma_destroy_preserves_survivors(w0: World, w1: World, e: usize, e2: usize)
        requires
            w0.wf(),
            w1.wf(),
            !w1.live(e),
            forall|e3: usize| e3 != e ==> w1.live(e3) == w0.live(e3),
            forall|e3: usize|
                e3 != e && w0.live(e3) ==> w1.sig_of(e3) == w0.sig_of(e3) && w1.id_comps(e3)
                    == w0.id_comps(e3),
            e2 != e,
            w0.live(e2),
        ensures
            w1.live(e2),
            w1.id_comps(e2) == w0.id_comps(e2),
            (w1.record_of(e2).archetype as int) < w1.n_arch(),
            (w1.record_of(e2).row as int) < w1.arch_entities(
                w1.record_of(e2).archetype as int,
            ).len(),
            w1.arch_entities(w1.record_of(e2).archetype as int)[w1.record_of(e2).row as int] == e2,
    {
        assert(w1.record_ok(e2 as int));
    }
}

/// The position of a tag within a registry sequence (meaningful when the tag
/// occurs; registries never hold a tag twice).
pub closed spec fn tag_index(r: Seq<u64>, tag: u64) -> usize {
    choose|i: usize| (i as int) < r.len() && r[i as int] == tag
}

/// Every column of the archetype has one slot per row.
pub closed spec fn lockstep(arch: Archetype) -> bool {
    forall|k: int|
        0 <= k < arch.columns@.len() ==> (#[trigger] arch.columns@[k])@.len()
            == arch.entities@.len()
}

/// A snapshot of one row: the value each column holds at `row`.
fn read_row(arch: &Archetype, row: usize) -> (vals: Vec<u64>)
    requires
        lockstep(*arch),
        (row as int) < arch.entities@.len(),
    ensures
        vals@.len() == arch.columns@.len(),
        forall|k: int| 0 <= k < vals@.len() ==> vals@[k] == arch.columns@[k]@[row as int],
{
    let mut vals: Vec<u64> = Vec::new();
    let mut k: usize = 0;
    while k < arch.columns.len()
        invariant
            lockstep(*arch),
            (row as int) < arch.entities@.len(),
            k <= arch.columns@.len(),
            vals@.len() == k,
            forall|j: int| 0 <= j < k ==> vals@[j] == arch.columns@[j]@[row as int],
        decreases arch.columns@.len() - k,
    {
        let col: &Vec<u64> = &arch.columns[k];
        vals.push(col[row]);
        k = k + 1;
    }
    vals
}

/// Swap-remove one row from every column in lock-step: the last row's data
/// moves into `row`, and every column shrinks by one.
fn remove_row(arch: &mut Archetype, row: usize)
    requires
        lockstep(*old(arch)),
        (row as int) < old(arch).entities@.len(),
    ensures
        final(arch).sig@ == old(arch).sig@,
        final(arch).add_edges@ == old(arch).add_edges@,
        final(arch).remove_edges@ == old(arch).remove_edges@,
        final(arch).entities@ == old(arch).entities@.update(
            row as int,
            old(arch).entities@.last(),
        ).drop_last(),
        final(arch).columns@.len() == old(arch).columns@.len(),
        forall|k: int|
            0 <= k < old(arch).columns@.len() ==> (#[trigger] final(arch).columns@[k])@ == old(
                arch,
            ).columns@[k]@.update(row as int, old(arch).columns@[k]@.last()).drop_last(),
        lockstep(*final(arch)),
{
    arch.entities.swap_remove(row);
    let n_cols = arch.columns.len();
    let mut k: usize = 0;
    while k < n_cols
        invariant
            (row as int) < old(arch).entities@.len(),
            lockstep(*old(arch)),
            arch.sig@ == old(arch).sig@,
            arch.add_edges@ == old(arch).add_edges@,
            arch.remove_edges@ == old(arch).remove_edges@,
            arch.entities@ == old(arch).entities@.update(
                row as int,
                old(arch).entities@.last(),
            ).drop_last(),
            n_cols == old(arch).columns@.len(),
            arch.columns@.len() == n_cols,
            k <= n_cols,
            forall|j: int|
                0 <= j < k ==> (#[trigger] arch.columns@[j])@ == old(arch).columns@[j]@.update(
                    row as int,
                    old(arch).columns@[j]@.last(),
                ).drop_last(),
            forall|j: int|
                k <= j < n_cols ==> (#[trigger] arch.columns@[j])@ == old(arch).columns@[j]@,
        decreases n_cols - k,
    {
        let col = &mut arch.columns[k];
        col.swap_remove(row);
        k = k + 1;
    }
}

/// Append one row: `e` to the entity column and one value to every column.
fn insert_row(arch: &mut Archetype, e: usize, vals: &Vec<u64>)
    requires
        lockstep(*old(arch)),
        vals@.len() == old(arch).columns@.len(),
    ensures
        final(arch).sig@ == old(arch).sig@,
        final(arch).add_edges@ == old(arch).add_edges@,
        final(arch).remove_edges@ == old(arch).remove_edges@,
        final(arch).entities@ == old(arch).entities@.push(e),
        final(arch).columns@.len() == old(arch).columns@.len(),
        forall|k: int|
            0 <= k < old(arch).columns@.len() ==> (#[trigger] final(arch).columns@[k])@ == old(
                arch,
            ).columns@[k]@.push(vals@[k]),
        lockstep(*final(arch)),
{
    arch.entities.push(e);
    let n_cols = arch.columns.len();
    let mut k: usize = 0;
    while k < n_cols
        invariant
            lockstep(*old(arch)),
            vals@.len() == old(arch).columns@.len(),
            arch.sig@ == old(arch).sig@,
            arch.add_edges@ == old(arch).add_edges@,
            arch.remove_edges@ == old(arch).remove_edges@,
            arch.entities@ == old(arch).entities@.push(e),
            n_cols == old(arch).columns@.len(),
            arch.columns@.len() == n_cols,
            k <= n_cols,
            forall|j: int|
                0 <= j < k ==> (#[trigger] arch.columns@[j])@ == old(arch).columns@[j]@.push(
                    vals@[j],
                ),
            forall|j: int|
                k <= j < n_cols ==> (#[trigger] arch.columns@[j])@ == old(arch).columns@[j]@,
        decreases n_cols - k,
    {
        let col = &mut arch.columns[k];
        col.push(vals[k]);
        k = k + 1;
    }
}

/// A fresh copy of a signature vector.
fn copy_ids(v: &Vec<usize>) -> (r: Vec<usize>)
    ensures
        r@ == v@,
{
    let mut r: Vec<usize> = Vec::new();
    let mut i: usize = 0;
    while i < v.len()
        invariant
            i <= v@.len(),
            r@ =~= v@.take(i as int),
        decreases v@.len() - i,
    {
        r.push(v[i]);
        proof {
            assert(v@.take(i as int).push(v@[i as int]) =~= v@.take(i as int + 1));
        }
        i = i + 1;
    }
    proof {
        assert(v@.take(v@.len() as int) =~= v@);
    }
    r
}

/// `n` empty columns.
fn empty_columns(n: usize) -> (r: Vec<Vec<u64>>)
    ensures
        r@.len() == n,
        forall|k: int| 0 <= k < n ==> (#[trigger] r@[k])@.len() == 0,
{
    let mut r: Vec<Vec<u64>> = Vec::new();
    let mut i: usize = 0;
    while i < n
        invariant
            i <= n,
            r@.len() == i,
            forall|k: int| 0 <= k < i ==> (#[trigger] r@[k])@.len() == 0,
        decreases n - i,
    {
        r.push(Vec::new());
        i = i + 1;
    }
    r
}

/// The target of the first edge keyed by `t`, if any.
fn edge_lookup(edges: &Vec<(usize, usize)>, t: usize) -> (r: Option<usize>)
    ensures
        match r {
            Some(b) => exists|k: int| 0 <= k < edges@.len() && edges@[k] == (t, b),
            None => forall|k: int| 0 <= k < edges@.len() ==> (#[trigger] edges@[k]).0 != t,
        },
{
    let mut k: usize = 0;
    while k < edges.len()
        invariant
            k <= edges@.len(),
            forall|j: int| 0 <= j < k ==> (#[trigger] edges@[j]).0 != t,
        decreases edges@.len() - k,
    {
        let (t2, b) = edges[k];
        if t2 == t {
            proof {
                assert(edges@[k as int] == (t, b));
            }
            return Some(b);
        }
        k = k + 1;
    }
    None
}

/// First position of `x` in `v`, if any.
fn find_u64(v: &Vec<u64>, x: u64) -> (r: Option<usize>)
    ensures
        match r {
            Some(i) => (i as int) < v@.len() && v@[i as int] == x,
            None => !v@.contains(x),
        },
{
    let mut i: usize = 0;
    while i < v.len()
        invariant
            i <= v@.len(),
            forall|j: int| 0 <= j < i ==> v@[j] != x,
        decreases v@.len() - i,
    {
        if v[i] == x {
            return Some(i);
        }
        i = i + 1;
    }
    proof {
        if v@.contains(x) {
            let j = choose|j: int| 0 <= j < v@.len() && v@[j] == x;
            assert(false);
        }
    }
    None
}

} // verus!
