//! The node store: an arena of nodes linked into a forest, with cached world
//! transforms kept up to date by dirty propagation.
use vstd::prelude::*;

use bevy::math::Isometry3d;

use crate::pose::{composed, compose};
use crate::names::{index_names, indexes, is_first_repeat, names_unique, string_views};
use crate::file::FileTransformTreeError;
use vstd::hash_map::StringHashMap;

verus! {

/// The `k`-th ancestor of node `d` under the parent links `links`: `d` itself
/// for `k == 0`, and `None` once a root has been passed.
pub open spec fn ancestor(links: Seq<Option<NodeId>>, d: int, k: nat) -> Option<int>
    decreases k,
{
    if k == 0 {
        Some(d)
    } else {
        match links[d] {
            Some(p) => ancestor(links, p as int, (k - 1) as nat),
            None => None,
        }
    }
}

/// The world transform of node `i` composed from the local transforms along
/// its first `k` parent links: the local transform of the node at the end of
/// that path, then each local transform on the way back down to `i`.
pub open spec fn chain_world(links: Seq<Option<NodeId>>, locals: Seq<Isometry3d>, i: int, k: nat) -> Isometry3d
    decreases k,
{
    match links[i] {
        Some(p) => if k == 0 {
            locals[i]
        } else {
            composed(chain_world(links, locals, p as int, (k - 1) as nat), locals[i])
        },
        None => locals[i],
    }
}

/// Following `k` parent links from `i` ends at a root.
pub open spec fn reaches_root(links: Seq<Option<NodeId>>, i: int, k: nat) -> bool {
    match ancestor(links, i, k) {
        Some(r) => links[r] is None,
        None => false,
    }
}

/// Following one or more parent links from some node leads back to it.
pub open spec fn has_cycle(links: Seq<Option<NodeId>>) -> bool {
    exists|i: int, k: nat| 0 <= i < links.len() && k > 0 && #[trigger] ancestor(links, i, k) == Some(i)
}

/// Number of `false` entries.
pub open spec fn clean_count(s: Seq<bool>) -> nat
    decreases s.len(),
{
    if s.len() == 0 {
        0
    } else {
        clean_count(s.drop_last()) + if s.last() {
            0nat
        } else {
            1nat
        }
    }
}

proof fn lemma_clean_count_mark(s: Seq<bool>, i: int)
    requires
        0 <= i < s.len(),
        !s[i],
    ensures
        clean_count(s.update(i, true)) + 1 == clean_count(s),
    decreases s.len(),
{
    if i == s.len() - 1 {
        assert(s.update(i, true).drop_last() =~= s.drop_last());
    } else {
        assert(s.update(i, true).drop_last() =~= s.drop_last().update(i, true));
        lemma_clean_count_mark(s.drop_last(), i);
    }
}

/// Stable handle of a node: its position in the arena.
pub type NodeId = usize;

/// A forest of named nodes, each with a local and a cached world transform.
pub struct TransformTree {
    names: Vec<String>,
    parents: Vec<Option<NodeId>>,
    children: Vec<Vec<NodeId>>,
    locals: Vec<Isometry3d>,
    worlds: Vec<Isometry3d>,
    dirty: Vec<bool>,
    /// Strictly larger than the rank of the parent: witnesses that the
    /// parent links have no cycle.
    rank: Ghost<Seq<nat>>,
}

impl TransformTree {
    pub closed spec fn node_count(&self) -> nat {
        self.names@.len()
    }

    pub closed spec fn name_at(&self, i: int) -> Seq<char> {
        self.names@[i]@
    }

    pub open spec fn parent_at(&self, i: int) -> Option<NodeId> {
        self.parent_links()[i]
    }

    pub closed spec fn children_at(&self, i: int) -> Seq<NodeId> {
        self.children@[i]@
    }

    pub closed spec fn local_at(&self, i: int) -> Isometry3d {
        self.locals@[i]
    }

    pub closed spec fn world_at(&self, i: int) -> Isometry3d {
        self.worlds@[i]
    }

    pub closed spec fn dirty_at(&self, i: int) -> bool {
        self.dirty@[i]
    }

    /// A bound on the number of parent links above node `i`.
    pub closed spec fn rank_at(&self, i: int) -> nat {
        self.rank@[i]
    }

    /// Parent links of all nodes, by handle.
    pub closed spec fn parent_links(&self) -> Seq<Option<NodeId>> {
        self.parents@
    }

    /// Node `d` lies in the subtree of node `a` (`a` included).
    pub open spec fn is_descendant(&self, d: int, a: int) -> bool {
        exists|k: nat| #[trigger] ancestor(self.parent_links(), d, k) == Some(a)
    }

    /// The names of all nodes, by handle.
    pub open spec fn names_view(&self) -> Seq<Seq<char>> {
        Seq::new(self.node_count(), |i: int| self.name_at(i))
    }

    /// The cached world transform of node `i` is valid: a clean node has a clean
    /// parent and its world is the parent's world composed with its local
    /// transform (its local transform, for a root).
    pub open spec fn cache_ok_at(&self, i: int) -> bool {
        !self.dirty_at(i) ==> match self.parent_at(i) {
            None => self.world_at(i) == self.local_at(i),
            Some(p) => !self.dirty_at(p as int) && self.world_at(i) == composed(
                self.world_at(p as int),
                self.local_at(i),
            ),
        }
    }

    /// Lengths agree, links stay in range, parent and child links mirror each
    /// other, and the parent links are acyclic.
    pub closed spec fn shape_ok(&self) -> bool {
        let n = self.names@.len();
        &&& self.parents@.len() == n
        &&& self.children@.len() == n
        &&& self.locals@.len() == n
        &&& self.worlds@.len() == n
        &&& self.dirty@.len() == n
        &&& self.rank@.len() == n
        &&& forall|i: int|
            0 <= i < n && #[trigger] self.parents@[i] is Some ==> {
                let p = self.parents@[i].unwrap() as int;
                0 <= p < n && self.rank@[p] < self.rank@[i]
            }
        &&& forall|p: int, k: int|
            0 <= p < n && 0 <= k < self.children@[p]@.len() ==> {
                let c = #[trigger] self.children@[p]@[k] as int;
                0 <= c < n && self.parents@[c] == Some(p as NodeId)
            }
        &&& forall|c: int|
            0 <= c < n && #[trigger] self.parents@[c] is Some ==> self.children@[
                self.parents@[c].unwrap() as int
            ]@.contains(c as NodeId)
    }

    /// The store's invariant: a sound shape and a valid cache at every node.
    pub open spec fn wf(&self) -> bool {
        &&& self.shape_ok()
        &&& self.parent_links().len() == self.node_count()
        &&& self.node_count() <= usize::MAX
        &&& forall|i: int|
            0 <= i < self.node_count() && #[trigger] self.parent_links()[i] is Some
                ==> self.parent_links()[i].unwrap() < self.node_count()
        &&& forall|i: int| 0 <= i < self.node_count() ==> #[trigger] self.cache_ok_at(i)
    }

    /// The store holds the same nodes, links and transforms as `other`; only
    /// the cache may differ.
    pub open spec fn same_links(&self, other: &TransformTree) -> bool {
        &&& self.node_count() == other.node_count()
        &&& forall|i: int|
            0 <= i < self.node_count() ==> {
                &&& #[trigger] self.name_at(i) == other.name_at(i)
                &&& self.parent_at(i) == other.parent_at(i)
                &&& self.children_at(i) == other.children_at(i)
                &&& self.local_at(i) == other.local_at(i)
            }
    }

    /// An empty store.
    pub fn new() -> (t: TransformTree)
        ensures
            t.wf(),
            t.node_count() == 0,
    {
        TransformTree {
            names: Vec::new(),
            parents: Vec::new(),
            children: Vec::new(),
            locals: Vec::new(),
            worlds: Vec::new(),
            dirty: Vec::new(),
            rank: Ghost(Seq::empty()),
        }
    }

    /// Number of nodes.
    pub fn len(&self) -> (n: usize)
        requires
            self.wf(),
        ensures
            n == self.node_count(),
    {
        self.names.len()
    }

    /// Name of node `id`.
    pub fn name(&self, id: NodeId) -> (s: &String)
        requires
            self.wf(),
            id < self.node_count(),
        ensures
            s@ == self.name_at(id as int),
    {
        &self.names[id]
    }

    /// Parent of node `id`, if it is not a root.
    pub fn parent(&self, id: NodeId) -> (p: Option<NodeId>)
        requires
            self.wf(),
            id < self.node_count(),
        ensures
            p == self.parent_at(id as int),
    {
        self.parents[id]
    }

    /// Children of node `id`.
    pub fn children(&self, id: NodeId) -> (c: &Vec<NodeId>)
        requires
            self.wf(),
            id < self.node_count(),
        ensures
            c@ == self.children_at(id as int),
    {
        &self.children[id]
    }

    /// Transform of node `id` relative to its parent.
    pub fn local(&self, id: NodeId) -> (l: &Isometry3d)
        requires
            self.wf(),
            id < self.node_count(),
        ensures
            *l == self.local_at(id as int),
    {
        &self.locals[id]
    }

    /// Cached world transform of node `id`; valid when the node is not dirty.
    pub fn world(&self, id: NodeId) -> (w: &Isometry3d)
        requires
            self.wf(),
            id < self.node_count(),
        ensures
            *w == self.world_at(id as int),
    {
        &self.worlds[id]
    }

    /// Whether the cached world transform of node `id` is stale.
    pub fn is_dirty(&self, id: NodeId) -> (d: bool)
        requires
            self.wf(),
            id < self.node_count(),
        ensures
            d == self.dirty_at(id as int),
    {
        self.dirty[id]
    }

    /// Appends a node and returns its handle. A `parent` that is not an existing
    /// handle is treated as no parent. The new node's world transform is
    /// computed at once; under a stale parent the new node is stale too.
    pub fn add_node(&mut self, name: &str, local: Isometry3d, parent: Option<NodeId>) -> (id: NodeId)
        requires
            old(self).wf(),
            old(self).node_count() < usize::MAX,
        ensures
            final(self).wf(),
            id == old(self).node_count(),
            final(self).node_count() == old(self).node_count() + 1,
            final(self).name_at(id as int) == name@,
            final(self).local_at(id as int) == local,
            final(self).children_at(id as int) == Seq::<NodeId>::empty(),
            match parent {
                Some(p) if p < id => {
                    &&& final(self).parent_at(id as int) == Some(p)
                    &&& final(self).world_at(id as int) == composed(old(self).world_at(p as int), local)
                    &&& final(self).dirty_at(id as int) == old(self).dirty_at(p as int)
                    &&& final(self).children_at(p as int) == old(self).children_at(p as int).push(id)
                },
                _ => {
                    &&& final(self).parent_at(id as int) == None::<NodeId>
                    &&& final(self).world_at(id as int) == local
                    &&& !final(self).dirty_at(id as int)
                },
            },
            forall|i: int|
                0 <= i < id && (parent != Some(i as NodeId)) ==> {
                    &&& #[trigger] final(self).name_at(i) == old(self).name_at(i)
                    &&& final(self).parent_at(i) == old(self).parent_at(i)
                    &&& final(self).children_at(i) == old(self).children_at(i)
                    &&& final(self).local_at(i) == old(self).local_at(i)
                    &&& final(self).world_at(i) == old(self).world_at(i)
                    &&& final(self).dirty_at(i) == old(self).dirty_at(i)
                },
            forall|i: int|
                0 <= i < id ==> {
                    &&& #[trigger] final(self).name_at(i) == old(self).name_at(i)
                    &&& final(self).parent_at(i) == old(self).parent_at(i)
                    &&& final(self).local_at(i) == old(self).local_at(i)
                    &&& final(self).world_at(i) == old(self).world_at(i)
                    &&& final(self).dirty_at(i) == old(self).dirty_at(i)
                },
    {
        let id = self.names.len();
        let ghost old_rank = self.rank@;
        match parent {
            Some(p) if p < id => {
                let w = compose(&self.worlds[p], &local);
                let d = self.dirty[p];
                let mut kids: Vec<NodeId> = Vec::new();
                let mut k: usize = 0;
                while k < self.children[p].len()
                    invariant
                        p < id,
                        id == self.names@.len(),
                        self.children@.len() == id,
                        k <= self.children@[p as int]@.len(),
                        kids@ == self.children@[p as int]@.subrange(0, k as int),
                    decreases self.children@[p as int]@.len() - k,
                {
                    kids.push(self.children[p][k]);
                    k = k + 1;
                }
                proof {
                    assert(kids@ == self.children@[p as int]@);
                }
                kids.push(id);
                self.children.set(p, kids);
                self.names.push(name.to_string());
                self.parents.push(Some(p));
                self.children.push(Vec::new());
                self.locals.push(local);
                self.worlds.push(w);
                self.dirty.push(d);
                self.rank = Ghost(old_rank.push(old_rank[p as int] + 1));
                proof {
                    let n = id + 1;
                    assert forall|q: int, k: int|
                        0 <= q < n && 0 <= k < self.children@[q]@.len() implies {
                        let c = #[trigger] self.children@[q]@[k] as int;
                        0 <= c < n && self.parents@[c] == Some(q as NodeId)
                    } by {
                        if q < id {
                            if q != p && k < old(self).children@[q]@.len() {
                                assert(old(self).children@[q]@[k] == self.children@[q]@[k]);
                            } else if k < old(self).children@[q]@.len() {
                                assert(old(self).children@[q]@[k] == self.children@[q]@[k]);
                            }
                        }
                    }
                    assert forall|c: int|
                        0 <= c < n && #[trigger] self.parents@[c] is Some implies self.children@[
                            self.parents@[c].unwrap() as int
                        ]@.contains(c as NodeId) by {
                        if c < id {
                            let q = self.parents@[c].unwrap() as int;
                            assert(old(self).parents@[c] == self.parents@[c]);
                            assert(old(self).children@[q]@.contains(c as NodeId));
                            if q == p {
                                let k = choose|k: int| 0 <= k < old(self).children@[q]@.len() && old(self).children@[q]@[k] == c as NodeId;
                                assert(self.children@[q]@[k] == c as NodeId);
                            }
                        } else {
                            assert(self.children@[p as int]@.last() == id);
                        }
                    }
                    assert(self.shape_ok());
                }
            },
            _ => {
                self.names.push(name.to_string());
                self.parents.push(None);
                self.children.push(Vec::new());
                self.locals.push(local);
                self.worlds.push(local);
                self.dirty.push(false);
                self.rank = Ghost(old_rank.push(0));
                proof {
                    let n = id + 1;
                    assert forall|q: int, k: int|
                        0 <= q < n && 0 <= k < self.children@[q]@.len() implies {
                        let c = #[trigger] self.children@[q]@[k] as int;
                        0 <= c < n && self.parents@[c] == Some(q as NodeId)
                    } by {
                        if q < id {
                            assert(old(self).children@[q]@[k] == self.children@[q]@[k]);
                        }
                    }
                    assert forall|c: int|
                        0 <= c < n && #[trigger] self.parents@[c] is Some implies self.children@[
                            self.parents@[c].unwrap() as int
                        ]@.contains(c as NodeId) by {
                        assert(old(self).parents@[c] == self.parents@[c]);
                    }
                    assert(self.shape_ok());
                }
            },
        }
        proof {
            assert(self.children_at(id as int) =~= Seq::<NodeId>::empty());
            assert forall|i: int| 0 <= i < self.node_count() implies #[trigger] self.cache_ok_at(i) by {
                if i < id {
                    assert(old(self).cache_ok_at(i));
                }
            }
        }
        id
    }

    proof fn lemma_child_descendant(&self, c: int, p: NodeId, a: int)
        requires
            self.shape_ok(),
            0 <= c < self.node_count(),
            self.parent_at(c) == Some(p),
            self.is_descendant(p as int, a),
        ensures
            self.is_descendant(c, a),
    {
        let k = choose|k: nat| #[trigger] ancestor(self.parent_links(), p as int, k) == Some(a);
        assert(ancestor(self.parent_links(), c, k + 1) == ancestor(self.parent_links(), p as int, k));
    }

    /// Every node below a dirty node is dirty.
    proof fn lemma_below_dirty(&self, i: int, a: int, k: nat)
        requires
            self.wf(),
            0 <= i < self.node_count(),
            self.dirty_at(a),
            ancestor(self.parent_links(), i, k) == Some(a),
        ensures
            self.dirty_at(i),
        decreases k,
    {
        if k > 0 {
            let p = self.parents@[i].unwrap() as int;
            self.lemma_below_dirty(p, a, (k - 1) as nat);
            assert(self.cache_ok_at(i));
        }
    }

    /// Marks node `id` and every node below it dirty. The walk is breadth-first
    /// and does not descend below a node that is already dirty, since everything
    /// under a dirty node is dirty already.
    pub fn mark_dirty(&mut self, id: NodeId)
        requires
            old(self).wf(),
            id < old(self).node_count(),
        ensures
            final(self).wf(),
            final(self).same_links(old(self)),
            final(self).parent_links() == old(self).parent_links(),
            forall|i: int|
                0 <= i < old(self).node_count() ==> #[trigger] final(self).world_at(i)
                    == old(self).world_at(i),
            forall|i: int|
                0 <= i < old(self).node_count() ==> (#[trigger] final(self).dirty_at(i) <==> (
                old(self).dirty_at(i) || old(self).is_descendant(i, id as int))),
            old(self).dirty_at(id as int) ==> forall|i: int|
                0 <= i < old(self).node_count() ==> #[trigger] final(self).dirty_at(i) == old(
                    self).dirty_at(i),
    {
        proof {
            if old(self).dirty_at(id as int) {
                assert forall|i: int| 0 <= i < old(self).node_count() && old(self).is_descendant(i, id as int)
                    implies #[trigger] old(self).dirty_at(i) by {
                    let k = choose|k: nat| #[trigger] ancestor(old(self).parent_links(), i, k) == Some(id as int);
                    old(self).lemma_below_dirty(i, id as int, k);
                }
            }
        }
        let len = self.names.len();
        let ghost n = len as int;
        let mut q: std::collections::VecDeque<NodeId> = std::collections::VecDeque::new();
        q.push_back(id);
        proof {
            assert(ancestor(self.parent_links(), id as int, 0) == Some(id as int));
            assert(q@[0] == id);
            assert(q@.contains(id));
            assert forall|i: int| 0 <= i < n implies #[trigger] self.cache_ok_at(i) by {
                assert(old(self).cache_ok_at(i));
            }
        }
        while q.len() > 0
            invariant
                self.shape_ok(),
                self.names == old(self).names,
                self.parents == old(self).parents,
                self.children == old(self).children,
                self.locals == old(self).locals,
                self.worlds == old(self).worlds,
                self.rank == old(self).rank,
                self.dirty@.len() == n,
                n == old(self).node_count(),
                n <= usize::MAX,
                old(self).wf(),
                old(self).dirty@.len() == n,
                id < n,
                forall|j: int|
                    0 <= j < q@.len() ==> #[trigger] q@[j] < n && old(self).is_descendant(
                        q@[j] as int,
                        id as int,
                    ),
                forall|i: int|
                    0 <= i < n ==> (#[trigger] self.dirty@[i] ==> old(self).dirty@[i]
                        || old(self).is_descendant(i, id as int)),
                forall|i: int| 0 <= i < n ==> #[trigger] old(self).dirty@[i] ==> self.dirty@[i],
                forall|i: int|
                    0 <= i < n ==> #[trigger] self.cache_ok_at(i) || q@.contains(i as NodeId),
                self.dirty@[id as int] || q@.contains(id),
            decreases clean_count(self.dirty@), q@.len(),
        {
            let ghost q0 = q@;
            let ghost s0 = *self;
            let cur = match q.pop_front() {
                Some(c) => c,
                None => id,
            };
            proof {
                assert(q0 == seq![cur].add(q@));
                assert(q0[0] == cur);
                assert forall|i: int| 0 <= i < n && #[trigger] q0.contains(i as NodeId) && i != cur implies q@.contains(i as NodeId) by {
                    let w = choose|w: int| 0 <= w < q0.len() && q0[w] == i as NodeId;
                    assert(q@[w - 1] == i as NodeId);
                }
            }
            if !self.dirty[cur] {
                proof {
                    lemma_clean_count_mark(self.dirty@, cur as int);
                }
                let ghost d0 = self.dirty@;
                self.dirty.set(cur, true);
                proof {
                    assert forall|i: int|
                        0 <= i < n implies #[trigger] self.cache_ok_at(i) || q@.contains(i as NodeId)
                            || self.parents@[i] == Some(cur) by {
                        assert(s0.cache_ok_at(i) || q0.contains(i as NodeId));
                        if i != cur && self.parents@[i] != Some(cur) && !q@.contains(i as NodeId) {
                            assert(s0.cache_ok_at(i));
                            assert(d0[i] == self.dirty@[i]);
                            if self.parents@[i] is Some {
                                let pp = self.parents@[i].unwrap() as int;
                                assert(d0[pp] == self.dirty@[pp]);
                            }
                        }
                    }
                }
                let mut k: usize = 0;
                while k < self.children[cur].len()
                    invariant
                        self.shape_ok(),
                        self.names == old(self).names,
                        self.parents == old(self).parents,
                        self.children == old(self).children,
                        self.locals == old(self).locals,
                        self.worlds == old(self).worlds,
                        self.rank == old(self).rank,
                        self.dirty@.len() == n,
                        n == old(self).node_count(),
                        n <= usize::MAX,
                        old(self).wf(),
                        old(self).dirty@.len() == n,
                        id < n,
                        cur < n,
                        self.dirty@[cur as int],
                        old(self).is_descendant(cur as int, id as int),
                        k <= self.children@[cur as int]@.len(),
                        forall|j: int|
                            0 <= j < q@.len() ==> #[trigger] q@[j] < n && old(self).is_descendant(
                                q@[j] as int,
                                id as int,
                            ),
                        forall|i: int|
                            0 <= i < n ==> (#[trigger] self.dirty@[i] ==> old(self).dirty@[i]
                                || old(self).is_descendant(i, id as int)),
                        forall|i: int|
                            0 <= i < n ==> #[trigger] old(self).dirty@[i] ==> self.dirty@[i],
                        forall|i: int|
                            0 <= i < n ==> #[trigger] self.cache_ok_at(i) || q@.contains(
                                i as NodeId,
                            ) || self.parents@[i] == Some(cur),
                        forall|j: int|
                            0 <= j < k ==> q@.contains(#[trigger] self.children@[cur as int]@[j]),
                        self.dirty@[id as int] || q@.contains(id),
                    decreases self.children@[cur as int]@.len() - k,
                {
                    let c = self.children[cur][k];
                    proof {
                        old(self).lemma_child_descendant(c as int, cur, id as int);
                    }
                    let ghost q1 = q@;
                    q.push_back(c);
                    proof {
                        assert(q@ == q1.push(c));
                        assert(q@[q1.len() as int] == c);
                        assert forall|j: int| 0 <= j < q@.len() implies #[trigger] q@[j] < n && old(self).is_descendant(
                                q@[j] as int,
                                id as int,
                            ) by {
                            if j < q1.len() {
                                assert(q@[j] == q1[j]);
                            }
                        }
                        assert forall|i: int| 0 <= i < n && #[trigger] q1.contains(i as NodeId) implies q@.contains(i as NodeId) by {
                            let w = choose|w: int| 0 <= w < q1.len() && q1[w] == i as NodeId;
                            assert(q@[w] == i as NodeId);
                        }
                        assert forall|j: int| 0 <= j <= k implies q@.contains(
                            #[trigger] self.children@[cur as int]@[j],
                        ) by {
                            if j < k {
                                let x = self.children@[cur as int]@[j];
                                assert(q1.contains(x));
                            }
                        }
                    }
                    k = k + 1;
                }
                proof {
                    assert forall|i: int|
                        0 <= i < n implies #[trigger] self.cache_ok_at(i) || q@.contains(i as NodeId) by {
                        if !self.cache_ok_at(i) && !q@.contains(i as NodeId) && self.parents@[i] == Some(cur) {
                            assert(self.children@[cur as int]@.contains(i as NodeId));
                            let j = choose|j: int| 0 <= j < self.children@[cur as int]@.len() && self.children@[cur as int]@[j] == i as NodeId;
                            assert(q@.contains(self.children@[cur as int]@[j]));
                        }
                    }
                }
            }
        }
        proof {
            assert forall|i: int| 0 <= i < n implies #[trigger] self.dirty_at(i) <==> (
                old(self).dirty_at(i) || old(self).is_descendant(i, id as int)) by {
                if old(self).is_descendant(i, id as int) {
                    let k = choose|k: nat| #[trigger] ancestor(old(self).parent_links(), i, k) == Some(id as int);
                    self.lemma_below_dirty(i, id as int, k);
                }
            }
        }
    }

    /// Brings node `i` up to date: collects it and its dirty ancestors, then
    /// recomputes them from the topmost down, so that each node's parent is
    /// clean when the node is computed.
    fn refresh(&mut self, i: NodeId)
        requires
            old(self).wf(),
            i < old(self).node_count(),
        ensures
            final(self).wf(),
            final(self).names == old(self).names,
            final(self).parents == old(self).parents,
            final(self).children == old(self).children,
            final(self).locals == old(self).locals,
            final(self).rank == old(self).rank,
            !final(self).dirty_at(i as int),
            forall|j: int|
                0 <= j < old(self).node_count() && !old(self).dirty_at(j) ==> !#[trigger] final(
                    self).dirty_at(j),
            forall|j: int|
                0 <= j < old(self).node_count() && !old(self).dirty_at(j) ==> #[trigger] final(
                    self).world_at(j) == old(self).world_at(j),
    {
        let len = self.names.len();
        let ghost n = len as int;
        let mut path: Vec<NodeId> = Vec::new();
        let mut cur: NodeId = i;
        let mut done = false;
        while !done
            invariant
                *self == *old(self),
                self.wf(),
                n == self.node_count(),
                n <= usize::MAX,
                cur < n,
                path@.len() == 0 ==> cur == i,
                path@.len() > 0 ==> path@[0] == i,
                forall|k: int| 0 <= k < path@.len() ==> #[trigger] path@[k] < n && self.dirty@[path@[k] as int],
                forall|k: int|
                    0 <= k < path@.len() - 1 ==> self.parents@[#[trigger] path@[k] as int] == Some(path@[k + 1]),
                !done && path@.len() > 0 ==> self.parents@[path@.last() as int] == Some(cur),
                done ==> (path@.len() == 0 && !self.dirty@[i as int]) || (path@.len() > 0 && (
                self.parents@[path@.last() as int] is None || (self.parents@[path@.last() as int]
                    == Some(cur) && !self.dirty@[cur as int]))),
            decreases self.rank@[cur as int] + if done {
                0nat
            } else {
                1nat
            },
        {
            if !self.dirty[cur] {
                done = true;
            } else {
                path.push(cur);
                match self.parents[cur] {
                    Some(p) => {
                        cur = p;
                    },
                    None => {
                        done = true;
                    },
                }
            }
        }
        let mut k: usize = path.len();
        proof {
            assert forall|j: int| 0 <= j < n && !old(self).dirty_at(j) implies !#[trigger] self.dirty_at(j)
                && self.world_at(j) == old(self).world_at(j) by {}
        }
        while k > 0
            invariant
                self.wf(),
                self.names == old(self).names,
                self.parents == old(self).parents,
                self.children == old(self).children,
                self.locals == old(self).locals,
                self.rank == old(self).rank,
                n == self.node_count(),
                n <= usize::MAX,
                cur < n,
                k <= path@.len(),
                path@.len() == 0 ==> !self.dirty@[i as int],
                path@.len() > 0 ==> path@[0] == i,
                forall|j: int| 0 <= j < path@.len() ==> #[trigger] path@[j] < n,
                forall|j: int| 0 <= j < k ==> self.dirty@[#[trigger] path@[j] as int],
                k < path@.len() ==> !self.dirty@[path@[k as int] as int],
                forall|j: int|
                    0 <= j < path@.len() - 1 ==> self.parents@[#[trigger] path@[j] as int] == Some(path@[j + 1]),
                path@.len() > 0 ==> (self.parents@[path@.last() as int] is None || (
                self.parents@[path@.last() as int] == Some(cur) && !self.dirty@[cur as int])),
                old(self).wf(),
                forall|j: int| 0 <= j < n && !old(self).dirty_at(j) ==> !#[trigger] self.dirty_at(j),
                forall|j: int|
                    0 <= j < n && !old(self).dirty_at(j) ==> #[trigger] self.world_at(j) == old(
                        self).world_at(j),
            decreases k,
        {
            k = k - 1;
            let node = path[k];
            let w = match self.parents[node] {
                Some(p) => compose(&self.worlds[p], &self.locals[node]),
                None => self.locals[node],
            };
            let ghost s0 = *self;
            self.worlds.set(node, w);
            self.dirty.set(node, false);
            proof {
                assert(s0.dirty@[node as int]);
                assert forall|j: int| 0 <= j < n && !old(self).dirty_at(j) implies #[trigger] self.world_at(j) == old(self).world_at(j) by {
                    assert(!s0.dirty_at(j));
                    assert(s0.world_at(j) == old(self).world_at(j));
                    assert(j != node as int);
                }
                assert forall|j: int| 0 <= j < n && !old(self).dirty_at(j) implies !#[trigger] self.dirty_at(j) by {
                    assert(!s0.dirty_at(j));
                }
                assert(s0.cache_ok_at(node as int));
                assert forall|c: int| 0 <= c < n implies #[trigger] self.cache_ok_at(c) by {
                    assert(s0.cache_ok_at(c));
                    if c != node as int {
                        if self.parents@[c] == Some(node) {
                            assert(s0.dirty@[c]);
                        } else if self.parents@[c] is Some {
                            let pp = self.parents@[c].unwrap() as int;
                            assert(s0.dirty@[pp] == self.dirty@[pp]);
                        }
                    }
                }
                if k + 1 < path@.len() {
                    assert(self.parents@[path@[k as int] as int] == Some(path@[k + 1]));
                }
            }
        }
    }

    /// Recomputes the world transform of every dirty node; on return no node is
    /// dirty and every world transform matches its parent's (see
    /// `lemma_world_along_chain` for the whole chain to the root). World
    /// transforms that were valid before are left untouched.
    pub fn update_world(&mut self)
        requires
            old(self).wf(),
        ensures
            final(self).wf(),
            final(self).same_links(old(self)),
            final(self).parent_links() == old(self).parent_links(),
            forall|i: int| 0 <= i < final(self).node_count() ==> !#[trigger] final(self).dirty_at(i),
            forall|i: int|
                0 <= i < old(self).node_count() && !old(self).dirty_at(i) ==> #[trigger] final(self).world_at(i)
                    == old(self).world_at(i),
    {
        let len = self.names.len();
        let mut i: usize = 0;
        while i < len
            invariant
                self.wf(),
                self.names == old(self).names,
                self.parents == old(self).parents,
                self.children == old(self).children,
                self.locals == old(self).locals,
                self.rank == old(self).rank,
                len == self.node_count(),
                i <= len,
                old(self).wf(),
                forall|j: int| 0 <= j < i ==> !#[trigger] self.dirty_at(j),
                forall|j: int| 0 <= j < len && !old(self).dirty_at(j) ==> !#[trigger] self.dirty_at(j),
                forall|j: int|
                    0 <= j < len && !old(self).dirty_at(j) ==> #[trigger] self.world_at(j) == old(
                        self).world_at(j),
            decreases len - i,
        {
            self.refresh(i);
            i = i + 1;
        }
    }

    /// A copy of `v` without `x`.
    fn without(v: &Vec<NodeId>, x: NodeId) -> (r: Vec<NodeId>)
        ensures
            forall|y: NodeId| #[trigger] r@.contains(y) ==> y != x && v@.contains(y),
            forall|y: NodeId| #[trigger] v@.contains(y) && y != x ==> r@.contains(y),
    {
        let mut r: Vec<NodeId> = Vec::new();
        let mut k: usize = 0;
        while k < v.len()
            invariant
                k <= v@.len(),
                forall|j: int| 0 <= j < r@.len() ==> #[trigger] r@[j] != x && v@.contains(r@[j]),
                forall|j: int| 0 <= j < k && #[trigger] v@[j] != x ==> r@.contains(v@[j]),
            decreases v@.len() - k,
        {
            let c = v[k];
            if c != x {
                let ghost r0 = r@;
                r.push(c);
                proof {
                    assert(r@[r0.len() as int] == c);
                    assert forall|j: int| 0 <= j < k && #[trigger] v@[j] != x implies r@.contains(v@[j]) by {
                        let w = choose|w: int| 0 <= w < r0.len() && r0[w] == v@[j];
                        assert(r@[w] == v@[j]);
                    }
                    assert forall|j: int| 0 <= j < r@.len() implies #[trigger] r@[j] != x && v@.contains(r@[j]) by {
                        if j < r0.len() {
                            assert(r@[j] == r0[j]);
                        } else {
                            assert(v@[k as int] == c);
                        }
                    }
                }
            }
            k = k + 1;
        }
        proof {
            assert forall|y: NodeId| #[trigger] r@.contains(y) implies y != x && v@.contains(y) by {
                let w = choose|w: int| 0 <= w < r@.len() && r@[w] == y;
                assert(r@[w] != x);
            }
            assert forall|y: NodeId| #[trigger] v@.contains(y) && y != x implies r@.contains(y) by {
                let w = choose|w: int| 0 <= w < v@.len() && v@[w] == y;
                assert(v@[w] != x);
            }
        }
        r
    }

    /// A copy of `v` with `x` appended.
    fn with_pushed(v: &Vec<NodeId>, x: NodeId) -> (r: Vec<NodeId>)
        ensures
            r@ == v@.push(x),
    {
        let mut r: Vec<NodeId> = Vec::new();
        let mut k: usize = 0;
        while k < v.len()
            invariant
                k <= v@.len(),
                r@ == v@.subrange(0, k as int),
            decreases v@.len() - k,
        {
            r.push(v[k]);
            k = k + 1;
        }
        proof {
            assert(v@.subrange(0, v@.len() as int) =~= v@);
        }
        r.push(x);
        r
    }

    /// Links that agree everywhere but at `a` agree on what lies below `a`.
    proof fn lemma_descends_relinked(
        links: Seq<Option<NodeId>>,
        other: Seq<Option<NodeId>>,
        d: int,
        a: int,
        k: nat,
    )
        requires
            links.len() == other.len(),
            0 <= d < links.len(),
            forall|x: int| 0 <= x < links.len() && x != a ==> #[trigger] links[x] == other[x],
            forall|x: int|
                0 <= x < links.len() && #[trigger] links[x] is Some ==> links[x].unwrap() < links.len(),
            ancestor(links, d, k) == Some(a),
        ensures
            exists|k2: nat| #[trigger] ancestor(other, d, k2) == Some(a),
        decreases k,
    {
        if d == a {
            assert(ancestor(other, d, 0) == Some(a));
        } else {
            assert(links[d] == other[d]);
            let p = links[d].unwrap() as int;
            Self::lemma_descends_relinked(links, other, p, a, (k - 1) as nat);
            let k2 = choose|k2: nat| #[trigger] ancestor(other, p, k2) == Some(a);
            assert(ancestor(other, d, k2 + 1) == Some(a));
        }
    }

    /// Detaches the dirty node `id` from its parent, leaving it a root.
    fn unlink(&mut self, id: NodeId)
        requires
            old(self).wf(),
            id < old(self).node_count(),
            old(self).dirty_at(id as int),
        ensures
            final(self).wf(),
            final(self).names == old(self).names,
            final(self).locals == old(self).locals,
            final(self).worlds == old(self).worlds,
            final(self).dirty == old(self).dirty,
            final(self).parents@ == old(self).parents@.update(id as int, None),
    {
        let len = self.names.len();
        let ghost n = len as int;
        match self.parents[id] {
            Some(op) => {
                let kids = Self::without(&self.children[op], id);
                let ghost s0 = *self;
                self.children.set(op, kids);
                self.parents.set(id, None);
                proof {
                    assert forall|q: int, k: int|
                        0 <= q < n && 0 <= k < self.children@[q]@.len() implies {
                            let c = #[trigger] self.children@[q]@[k] as int;
                            0 <= c < n && self.parents@[c] == Some(q as NodeId)
                        } by {
                        let c = self.children@[q]@[k];
                        if q == op {
                            assert(self.children@[q]@.contains(c));
                            let w = choose|w: int| 0 <= w < s0.children@[q]@.len() && s0.children@[q]@[w] == c;
                            assert(s0.children@[q]@[w] == c);
                        } else {
                            assert(s0.children@[q]@[k] == c);
                        }
                    }
                    assert forall|c: int|
                        0 <= c < n && #[trigger] self.parents@[c] is Some implies self.children@[
                            self.parents@[c].unwrap() as int
                        ]@.contains(c as NodeId) by {
                        assert(s0.parents@[c] == self.parents@[c]);
                        let q = self.parents@[c].unwrap();
                        assert(s0.children@[q as int]@.contains(c as NodeId));
                    }
                    assert(self.shape_ok());
                    assert forall|i: int| 0 <= i < n implies #[trigger] self.cache_ok_at(i) by {
                        assert(s0.cache_ok_at(i));
                    }
                }
            },
            None => {
                proof {
                    assert(self.parents@ =~= old(self).parents@.update(id as int, None));
                }
            },
        }
    }

    /// Makes the dirty root `id` a child of `p`, which lies outside its subtree.
    fn link(&mut self, id: NodeId, p: NodeId)
        requires
            old(self).wf(),
            id < old(self).node_count(),
            p < old(self).node_count(),
            old(self).dirty_at(id as int),
            old(self).parent_at(id as int) is None,
            !old(self).is_descendant(p as int, id as int),
        ensures
            final(self).wf(),
            final(self).names == old(self).names,
            final(self).locals == old(self).locals,
            final(self).worlds == old(self).worlds,
            final(self).dirty == old(self).dirty,
            final(self).parents@ == old(self).parents@.update(id as int, Some(p)),
    {
        let len = self.names.len();
        let ghost n = len as int;
        let ghost s0 = *self;
        let kids = Self::with_pushed(&self.children[p], id);
        self.children.set(p, kids);
        self.parents.set(id, Some(p));
        proof {
            let pr = s0.rank@[p as int];
            self.rank = Ghost(Seq::new(n as nat, |d: int| if s0.is_descendant(d, id as int) {
                s0.rank@[d] + pr + 1
            } else {
                s0.rank@[d]
            }));
            assert(ancestor(s0.parent_links(), id as int, 0) == Some(id as int));
            assert forall|i: int|
                0 <= i < n && #[trigger] self.parents@[i] is Some implies {
                    let q = self.parents@[i].unwrap() as int;
                    0 <= q < n && self.rank@[q] < self.rank@[i]
                } by {
                if i != id {
                    assert(s0.parents@[i] == self.parents@[i]);
                    let q = self.parents@[i].unwrap();
                    if s0.is_descendant(q as int, id as int) {
                        s0.lemma_child_descendant(i, q, id as int);
                    }
                }
            }
            assert forall|q: int, k: int|
                0 <= q < n && 0 <= k < self.children@[q]@.len() implies {
                    let c = #[trigger] self.children@[q]@[k] as int;
                    0 <= c < n && self.parents@[c] == Some(q as NodeId)
                } by {
                let c = self.children@[q]@[k];
                if q == p && k == self.children@[q]@.len() - 1 {
                } else {
                    assert(s0.children@[q]@[k] == c);
                }
            }
            assert forall|c: int|
                0 <= c < n && #[trigger] self.parents@[c] is Some implies self.children@[
                    self.parents@[c].unwrap() as int
                ]@.contains(c as NodeId) by {
                let q = self.parents@[c].unwrap();
                if c == id {
                    assert(self.children@[q as int]@.last() == id);
                } else {
                    assert(s0.parents@[c] == self.parents@[c]);
                    assert(s0.children@[q as int]@.contains(c as NodeId));
                    let w = choose|w: int| 0 <= w < s0.children@[q as int]@.len() && s0.children@[q as int]@[w] == c as NodeId;
                    assert(self.children@[q as int]@[w] == c as NodeId);
                }
            }
            assert(self.shape_ok());
            assert forall|i: int| 0 <= i < n implies #[trigger] self.cache_ok_at(i) by {
                assert(s0.cache_ok_at(i));
            }
        }
    }

    /// Moves node `id` under `parent` (or makes it a root), and marks it and
    /// every node below it dirty. The new parent must not lie in the subtree of
    /// `id`, which would close a cycle.
    pub fn set_parent(&mut self, id: NodeId, parent: Option<NodeId>)
        requires
            old(self).wf(),
            id < old(self).node_count(),
            match parent {
                Some(p) => p < old(self).node_count() && !old(self).is_descendant(p as int, id as int),
                None => true,
            },
        ensures
            final(self).wf(),
            final(self).node_count() == old(self).node_count(),
            final(self).parent_at(id as int) == parent,
            forall|i: int|
                0 <= i < old(self).node_count() ==> {
                    &&& #[trigger] final(self).name_at(i) == old(self).name_at(i)
                    &&& final(self).local_at(i) == old(self).local_at(i)
                    &&& final(self).world_at(i) == old(self).world_at(i)
                    &&& (i != id ==> final(self).parent_at(i) == old(self).parent_at(i))
                },
            forall|i: int|
                0 <= i < old(self).node_count() ==> (#[trigger] final(self).dirty_at(i) <==> (
                old(self).dirty_at(i) || old(self).is_descendant(i, id as int))),
    {
        self.mark_dirty(id);
        let ghost s0 = *self;
        proof {
            assert(ancestor(old(self).parent_links(), id as int, 0) == Some(id as int));
        }
        proof {
            assert(s0.dirty_at(id as int));
        }
        self.unlink(id);
        let ghost s1 = *self;
        match parent {
            Some(p) => {
                proof {
                    if s1.is_descendant(p as int, id as int) {
                        let k = choose|k: nat| #[trigger] ancestor(s1.parent_links(), p as int, k) == Some(id as int);
                        Self::lemma_descends_relinked(s1.parent_links(), s0.parent_links(), p as int, id as int, k);
                    }
                }
                self.link(id, p);
            },
            None => {},
        }
        proof {
            let n = self.node_count() as int;
            assert forall|i: int| 0 <= i < n implies {
                &&& #[trigger] self.name_at(i) == old(self).name_at(i)
                &&& self.local_at(i) == old(self).local_at(i)
                &&& self.world_at(i) == old(self).world_at(i)
                &&& (i != id ==> self.parent_at(i) == old(self).parent_at(i))
            } by {
                assert(s0.name_at(i) == old(self).name_at(i));
                assert(s0.local_at(i) == old(self).local_at(i));
                assert(s0.world_at(i) == old(self).world_at(i));
                assert(s0.parent_links() == old(self).parent_links());
                if i != id {
                    assert(s1.parents@[i] == s0.parents@[i]);
                    assert(self.parents@[i] == s1.parents@[i]);
                }
            }
            assert forall|i: int| 0 <= i < n implies (#[trigger] self.dirty_at(i) <==> (
                old(self).dirty_at(i) || old(self).is_descendant(i, id as int))) by {
                assert(s0.dirty_at(i) == self.dirty_at(i));
            }
        }
    }

    /// Local transforms of all nodes, by handle.
    pub open spec fn locals_view(&self) -> Seq<Isometry3d> {
        Seq::new(self.node_count(), |i: int| self.local_at(i))
    }

    proof fn lemma_rank_falls(&self, i: int, k: nat)
        requires
            self.shape_ok(),
            0 <= i < self.node_count(),
            k > 0,
            ancestor(self.parent_links(), i, k) is Some,
        ensures
            ({
                let a = ancestor(self.parent_links(), i, k).unwrap();
                0 <= a < self.node_count() && self.rank@[a] < self.rank@[i]
            }),
        decreases k,
    {
        let p = self.parents@[i].unwrap() as int;
        assert(ancestor(self.parent_links(), i, k) == ancestor(self.parent_links(), p, (k - 1) as nat));
        if k > 1 {
            self.lemma_rank_falls(p, (k - 1) as nat);
        } else {
            assert(ancestor(self.parent_links(), p, 0) == Some(p));
        }
    }

    /// The parent links of a well-formed store have no cycle.
    pub proof fn lemma_acyclic(&self)
        requires
            self.wf(),
        ensures
            !has_cycle(self.parent_links()),
    {
        if has_cycle(self.parent_links()) {
            let (i, k) = choose|i: int, k: nat|
                0 <= i < self.parent_links().len() && k > 0 && #[trigger] ancestor(self.parent_links(), i, k) == Some(i);
            self.lemma_rank_falls(i, k);
        }
    }

    /// In a store with no dirty node, the world transform of every node is the
    /// composition of the local transforms on the path from its root down to
    /// it; for a root, its local transform.
    pub proof fn lemma_world_along_chain(&self, i: int)
        requires
            self.wf(),
            0 <= i < self.node_count(),
            forall|j: int| 0 <= j < self.node_count() ==> !#[trigger] self.dirty_at(j),
        ensures
            exists|k: nat|
                #[trigger] reaches_root(self.parent_links(), i, k) && self.world_at(i) == chain_world(
                    self.parent_links(),
                    self.locals_view(),
                    i,
                    k,
                ),
        decreases self.rank_at(i),
    {
        assert(self.cache_ok_at(i));
        assert(!self.dirty_at(i));
        match self.parents@[i] {
            None => {
                assert(ancestor(self.parent_links(), i, 0) == Some(i));
                assert(reaches_root(self.parent_links(), i, 0));
            },
            Some(p) => {
                self.lemma_world_along_chain(p as int);
                let k = choose|k: nat|
                    #[trigger] reaches_root(self.parent_links(), p as int, k) && self.world_at(p as int)
                        == chain_world(self.parent_links(), self.locals_view(), p as int, k);
                assert(ancestor(self.parent_links(), i, k + 1) == ancestor(self.parent_links(), p as int, k));
                assert(reaches_root(self.parent_links(), i, k + 1));
                assert(chain_world(self.parent_links(), self.locals_view(), i, k + 1) == composed(
                    chain_world(self.parent_links(), self.locals_view(), p as int, k),
                    self.locals_view()[i],
                ));
            },
        }
    }

    /// Whether node `d` lies in the subtree of node `a` (`a` included), found
    /// by walking up the parent links from `d`.
    pub fn is_under(&self, d: NodeId, a: NodeId) -> (r: bool)
        requires
            self.wf(),
            d < self.node_count(),
            a < self.node_count(),
        ensures
            r == self.is_descendant(d as int, a as int),
    {
        let mut cur = d;
        loop
            invariant
                self.wf(),
                cur < self.node_count(),
                self.is_descendant(d as int, a as int) == self.is_descendant(cur as int, a as int),
            decreases self.rank@[cur as int],
        {
            if cur == a {
                proof {
                    assert(ancestor(self.parent_links(), cur as int, 0) == Some(a as int));
                }
                return true;
            }
            match self.parents[cur] {
                Some(p) => {
                    proof {
                        if self.is_descendant(cur as int, a as int) {
                            let k = choose|k: nat| #[trigger] ancestor(self.parent_links(), cur as int, k) == Some(a as int);
                            assert(ancestor(self.parent_links(), p as int, (k - 1) as nat) == Some(a as int));
                        }
                        if self.is_descendant(p as int, a as int) {
                            self.lemma_child_descendant(cur as int, p, a as int);
                        }
                    }
                    cur = p;
                },
                None => {
                    proof {
                        assert forall|k: nat| #[trigger] ancestor(self.parent_links(), cur as int, k) != Some(a as int) by {
                        }
                    }
                    return false;
                },
            }
        }
    }

    /// Maps each node's name to its handle, or reports the first name that
    /// repeats an earlier one.
    pub fn name_hash(&self) -> (r: Result<StringHashMap<NodeId>, FileTransformTreeError>)
        requires
            self.wf(),
        ensures
            match r {
                Ok(m) => names_unique(self.names_view()) && indexes(m@, self.names_view()),
                Err(FileTransformTreeError::Duplicate(s)) => exists|j: int|
                    is_first_repeat(self.names_view(), j) && s@ == self.names_view()[j],
                Err(_) => false,
            },
    {
        proof {
            assert(string_views(self.names@) =~= self.names_view());
        }
        match index_names(&self.names) {
            Ok(m) => Ok(m),
            Err(s) => Err(FileTransformTreeError::Duplicate(s)),
        }
    }
}

} // verus!
