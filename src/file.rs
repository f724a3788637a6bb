//! The name-addressed file representation and its conversion into a store.
use vstd::prelude::*;
use vstd::hash_map::StringHashMap;

use bevy::math::DVec3;

use crate::names::{index_names, indexes, is_first_repeat, names_unique, string_views};
use crate::pose::{euler_of, euler_of_pose, pose_from_euler, pose_of, translation_of, translation_of_pose};
use crate::tree::{ancestor, has_cycle, NodeId, TransformTree};

verus! {

/// Why a file representation could not be turned into a store.
#[derive(Debug)]
pub enum FileTransformTreeError {
    /// A node names a parent that no node of the file has.
    ParentMissing(String),
    /// Two nodes share this name.
    Duplicate(String),
    /// The file could not be read or decoded.
    Serialization(String),
    /// Linking this node to its parent would close a cycle.
    Cycle(String),
}

/// One node as written in a file: its parent is named, not numbered.
pub struct FileNode {
    pub name: String,
    pub parent: Option<String>,
    /// Translation.
    pub t: DVec3,
    /// Rotation as Euler angles in radians, applied about X, then Y, then Z.
    pub r: DVec3,
}

/// A whole hierarchy as written in a file.
pub struct FileTransformTree {
    pub version: u32,
    pub nodes: Vec<FileNode>,
}

/// The names of `nodes`, in order.
pub open spec fn file_names(nodes: Seq<FileNode>) -> Seq<Seq<char>> {
    Seq::new(nodes.len(), |i: int| nodes[i].name@)
}

/// Node `i` has no parent, or one whose name some node of the file has.
pub open spec fn parent_resolves(nodes: Seq<FileNode>, i: int) -> bool {
    match nodes[i].parent {
        Some(p) => file_names(nodes).contains(p@),
        None => true,
    }
}

/// Node `j` is the first whose parent does not resolve.
pub open spec fn is_first_unresolved(nodes: Seq<FileNode>, j: int) -> bool {
    &&& 0 <= j < nodes.len()
    &&& !parent_resolves(nodes, j)
    &&& forall|i: int| 0 <= i < j ==> parent_resolves(nodes, i)
}

/// Every node's parent resolves.
pub open spec fn all_parents_resolve(nodes: Seq<FileNode>) -> bool {
    forall|i: int| 0 <= i < nodes.len() ==> parent_resolves(nodes, i)
}

/// The position of the node named `s`.
pub open spec fn position_of(names: Seq<Seq<char>>, s: Seq<char>) -> int {
    choose|j: int| 0 <= j < names.len() && names[j] == s
}

/// The parent links that the file describes, by position in the file.
pub open spec fn file_links(nodes: Seq<FileNode>) -> Seq<Option<NodeId>> {
    Seq::new(
        nodes.len(),
        |i: int|
            match nodes[i].parent {
                Some(p) => Some(position_of(file_names(nodes), p@) as NodeId),
                None => None,
            },
    )
}

/// Links that agree with `full` wherever they are set reach no more than
/// `full` does.
proof fn lemma_partial_links(
    part: Seq<Option<NodeId>>,
    full: Seq<Option<NodeId>>,
    d: int,
    a: int,
    k: nat,
)
    requires
        part.len() == full.len(),
        0 <= d < part.len(),
        forall|x: int| 0 <= x < part.len() && #[trigger] part[x] is Some ==> part[x] == full[x],
        forall|x: int|
            0 <= x < part.len() && #[trigger] part[x] is Some ==> part[x].unwrap() < part.len(),
        ancestor(part, d, k) == Some(a),
    ensures
        ancestor(full, d, k) == Some(a),
    decreases k,
{
    if k > 0 {
        let p = part[d].unwrap() as int;
        lemma_partial_links(part, full, p, a, (k - 1) as nat);
    }
}

/// `t` is the store that `nodes` describe: names unique, every parent found,
/// no cycle; handles are file positions, links and local transforms are those
/// of the file, and every world transform is up to date.
pub open spec fn builds(nodes: Seq<FileNode>, t: TransformTree) -> bool {
    &&& names_unique(file_names(nodes))
    &&& all_parents_resolve(nodes)
    &&& !has_cycle(file_links(nodes))
    &&& t.wf()
    &&& t.names_view() == file_names(nodes)
    &&& t.parent_links() == file_links(nodes)
    &&& forall|i: int|
        0 <= i < nodes.len() ==> #[trigger] t.local_at(i) == pose_of(nodes[i].t, nodes[i].r)
    &&& forall|i: int| 0 <= i < nodes.len() ==> !#[trigger] t.dirty_at(i)
}

/// The name of a file node's parent, if it has one.
pub open spec fn parent_name(f: FileNode) -> Option<Seq<char>> {
    match f.parent {
        Some(p) => Some(p@),
        None => None,
    }
}

/// `nodes` write out `t` in handle order: each node's name, its parent's name,
/// and its local transform as translation and Euler angles.
pub open spec fn writes(t: TransformTree, nodes: Seq<FileNode>) -> bool {
    &&& nodes.len() == t.node_count()
    &&& forall|i: int| 0 <= i < nodes.len() ==> #[trigger] writes_node(t, i, nodes[i])
}

/// `f` writes out node `i` of `t`.
pub open spec fn writes_node(t: TransformTree, i: int, f: FileNode) -> bool {
    &&& f.name@ == t.name_at(i)
    &&& parent_name(f) == match t.parent_at(i) {
        Some(p) => Some(t.name_at(p as int)),
        None => None,
    }
    &&& f.t == translation_of(t.local_at(i))
    &&& f.r == euler_of(t.local_at(i))
}

/// Converting a file to a store and writing the store back gives each node,
/// at the same position, its name and its parent's name again.
pub proof fn lemma_round_trip_names(f: Seq<FileNode>, t: TransformTree, back: Seq<FileNode>)
    requires
        builds(f, t),
        writes(t, back),
    ensures
        back.len() == f.len(),
        forall|i: int|
            0 <= i < f.len() ==> #[trigger] back[i].name@ == f[i].name@ && parent_name(back[i])
                == parent_name(f[i]),
{
    assert forall|i: int| 0 <= i < f.len() implies #[trigger] back[i].name@ == f[i].name@
        && parent_name(back[i]) == parent_name(f[i]) by {
        assert(writes_node(t, i, back[i]));
        assert(t.names_view()[i] == file_names(f)[i]);
        assert(t.parent_at(i) == file_links(f)[i]);
        match f[i].parent {
            Some(p) => {
                assert(parent_resolves(f, i));
                let c = position_of(file_names(f), p@);
                assert(file_names(f)[c] == p@);
                assert(t.names_view()[c] == t.name_at(c));
            },
            None => {},
        }
    }
}

impl FileTransformTree {
    /// Maps each node's name to its position in the file, or reports the first
    /// name that repeats an earlier one.
    pub fn name_hash(&self) -> (r: Result<StringHashMap<NodeId>, FileTransformTreeError>)
        ensures
            match r {
                Ok(m) => names_unique(file_names(self.nodes@)) && indexes(m@, file_names(self.nodes@)),
                Err(FileTransformTreeError::Duplicate(s)) => exists|j: int|
                    is_first_repeat(file_names(self.nodes@), j) && s@ == file_names(self.nodes@)[j],
                Err(_) => false,
            },
    {
        let mut names: Vec<String> = Vec::new();
        let mut i: usize = 0;
        while i < self.nodes.len()
            invariant
                i <= self.nodes@.len(),
                names@.len() == i,
                string_views(names@) == file_names(self.nodes@).take(i as int),
            decreases self.nodes@.len() - i,
        {
            let ghost before = names@;
            let nm = self.nodes[i].name.clone();
            names.push(nm);
            proof {
                assert(nm@ == file_names(self.nodes@)[i as int]);
                assert(names@ == before.push(nm));
                assert(string_views(before) == file_names(self.nodes@).take(i as int));
                assert forall|j: int| 0 <= j <= i implies #[trigger] string_views(names@)[j] == file_names(self.nodes@).take(i as int + 1)[j] by {
                    if j < i {
                        assert(string_views(before)[j] == file_names(self.nodes@).take(i as int)[j]);
                        assert(names@[j] == before[j]);
                    }
                }
                assert(string_views(names@) =~= file_names(self.nodes@).take(i as int + 1));
            }
            i = i + 1;
        }
        proof {
            assert(file_names(self.nodes@).take(i as int) =~= file_names(self.nodes@));
        }
        match index_names(&names) {
            Ok(m) => Ok(m),
            Err(s) => Err(FileTransformTreeError::Duplicate(s)),
        }
    }
}

impl TransformTree {
    /// Builds a store from a file representation: every node is first added as
    /// a root in file order (so a node's handle is its position in the file),
    /// names are indexed, each declared parent is then linked by name, and the
    /// world transforms are computed once at the end.
    ///
    /// Fails on a repeated name, then on a parent name that no node has, then
    /// on parent links that form a cycle.
    pub fn try_from(ftree: FileTransformTree) -> (r: Result<TransformTree, FileTransformTreeError>)
        ensures
            ({
                let nodes = ftree.nodes@;
                let names = file_names(nodes);
                match r {
                    Ok(t) => builds(nodes, t),
                    Err(FileTransformTreeError::Duplicate(s)) => exists|j: int|
                        is_first_repeat(names, j) && s@ == names[j],
                    Err(FileTransformTreeError::ParentMissing(s)) => {
                        &&& names_unique(names)
                        &&& exists|j: int|
                            is_first_unresolved(nodes, j) && #[trigger] nodes[j].parent == Some(s)
                    },
                    Err(FileTransformTreeError::Cycle(s)) => {
                        &&& names_unique(names)
                        &&& all_parents_resolve(nodes)
                        &&& has_cycle(file_links(nodes))
                        &&& names.contains(s@)
                    },
                    Err(FileTransformTreeError::Serialization(_)) => false,
                }
            }),
    {
        let nodes = &ftree.nodes;
        let ghost ns = nodes@;
        let ghost names = file_names(ns);
        proof {
            assert(ns == ftree.nodes@);
        }
        let n = nodes.len();
        let mut res = TransformTree::new();
        let mut i: usize = 0;
        while i < n
            invariant
                n == ns.len(),
                ns == nodes@,
                ns == ftree.nodes@,
                names == file_names(ns),
                i <= n,
                res.wf(),
                res.node_count() == i,
                forall|j: int| 0 <= j < i ==> #[trigger] res.name_at(j) == names[j],
                forall|j: int| 0 <= j < i ==> #[trigger] res.local_at(j) == pose_of(ns[j].t, ns[j].r),
                forall|j: int| 0 <= j < i ==> #[trigger] res.parent_links()[j] is None,
            decreases n - i,
        {
            let node = &nodes[i];
            let local = pose_from_euler(&node.t, &node.r);
            let ghost before = res;
            res.add_node(node.name.as_str(), local, None);
            proof {
                assert forall|j: int| 0 <= j < i implies #[trigger] res.local_at(j) == pose_of(ns[j].t, ns[j].r) by {
                    assert(res.name_at(j) == before.name_at(j));
                }
                assert forall|j: int| 0 <= j < i implies #[trigger] res.parent_links()[j] is None by {
                    assert(res.name_at(j) == before.name_at(j));
                    assert(before.parent_at(j) is None);
                }
                assert(res.parent_at(i as int) is None);
            }
            i = i + 1;
        }
        proof {
            assert(res.names_view() =~= names);
            assert(res.parent_links() =~= Seq::new(
                n as nat,
                |x: int|
                    if x < 0 {
                        file_links(ns)[x]
                    } else {
                        None
                    },
            ));
        }
        let map = match res.name_hash() {
            Ok(m) => m,
            Err(e) => {
                return Err(e);
            },
        };
        let mut i: usize = 0;
        while i < n
            invariant
                n == ns.len(),
                ns == nodes@,
                ns == ftree.nodes@,
                names == file_names(ns),
                i <= n,
                indexes(map@, names),
                names_unique(names),
                forall|j: int| 0 <= j < i ==> parent_resolves(ns, j),
            decreases n - i,
        {
            match &nodes[i].parent {
                Some(p) => {
                    if !map.contains_key(p.as_str()) {
                        proof {
                            assert(is_first_unresolved(ns, i as int));
                        }
                        let s = p.clone();
                        proof {
                            assert(ns[i as int].parent == Some(s));
                            assert(names_unique(file_names(ftree.nodes@)));
                            assert(exists|j: int|
                                is_first_unresolved(ftree.nodes@, j) && #[trigger] ftree.nodes@[j].parent == Some(s));
                        }
                        return Err(FileTransformTreeError::ParentMissing(s));
                    }
                },
                None => {},
            }
            i = i + 1;
        }
        let ghost links = file_links(ns);
        let mut i: usize = 0;
        while i < n
            invariant
                n == ns.len(),
                ns == nodes@,
                ns == ftree.nodes@,
                names == file_names(ns),
                links == file_links(ns),
                names_unique(names),
                all_parents_resolve(ns),
                i <= n,
                indexes(map@, names),
                res.wf(),
                res.node_count() == n,
                res.names_view() == names,
                forall|j: int| 0 <= j < n ==> #[trigger] res.local_at(j) == pose_of(ns[j].t, ns[j].r),
                res.parent_links() == Seq::new(
                    n as nat,
                    |x: int|
                        if x < i {
                            links[x]
                        } else {
                            None
                        },
                ),
            decreases n - i,
        {
            match &nodes[i].parent {
                Some(p) => {
                    proof {
                        assert(parent_resolves(ns, i as int));
                    }
                    // Every parent name was found in the index above.
                    let pi: NodeId = match map.get(p.as_str()) {
                        Some(v) => *v,
                        None => {
                            proof {
                                let j = choose|j: int| 0 <= j < names.len() && names[j] == p@;
                                assert(map@.contains_key(names[j]));
                                assert(false);
                            }
                            0
                        },
                    };
                    proof {
                        assert(parent_resolves(ns, i as int));
                        let j = choose|j: int| 0 <= j < names.len() && names[j] == p@;
                        assert(map@[names[j]] == j);
                        assert(pi == j);
                        let c = position_of(names, p@);
                        assert(names[c] == p@);
                        assert(c == j);
                        assert(links[i as int] == Some(pi));
                    }
                    if res.is_under(pi, i) {
                        proof {
                            let k = choose|k: nat| #[trigger] ancestor(res.parent_links(), pi as int, k) == Some(i as int);
                            assert forall|x: int| 0 <= x < n && #[trigger] res.parent_links()[x] is Some
                                implies res.parent_links()[x].unwrap() < n by {
                                assert(res.parent_at(x) == res.parent_links()[x]);
                            }
                            lemma_partial_links(res.parent_links(), links, pi as int, i as int, k);
                            assert(ancestor(links, i as int, k + 1) == ancestor(links, pi as int, k));
                            assert(has_cycle(links));
                            assert(names[i as int] == nodes[i as int].name@);
                        }
                        let s = nodes[i].name.clone();
                        proof {
                            assert(names[i as int] == s@);
                            assert(names.contains(s@));
                            assert(file_links(ftree.nodes@) == links);
                            assert(has_cycle(file_links(ftree.nodes@)));
                            assert(all_parents_resolve(ftree.nodes@));
                            assert(names_unique(file_names(ftree.nodes@)));
                        }
                        return Err(FileTransformTreeError::Cycle(s));
                    }
                    let ghost before = res;
                    res.set_parent(i, Some(pi));
                    proof {
                        assert forall|x: int| 0 <= x < n implies #[trigger] res.parent_links()[x] == (if x < i + 1 {
                            links[x]
                        } else {
                            None
                        }) by {
                            assert(res.name_at(x) == before.name_at(x));
                        }
                        assert forall|x: int| 0 <= x < n implies #[trigger] res.local_at(x) == pose_of(ns[x].t, ns[x].r) by {
                            assert(res.name_at(x) == before.name_at(x));
                        }
                        assert(res.names_view() =~= names);
                        assert(res.parent_links() =~= Seq::new(
                            n as nat,
                            |x: int|
                                if x < i + 1 {
                                    links[x]
                                } else {
                                    None
                                },
                        ));
                    }
                },
                None => {
                    proof {
                        assert(res.parent_links() =~= Seq::new(
                            n as nat,
                            |x: int|
                                if x < i + 1 {
                                    links[x]
                                } else {
                                    None
                                },
                        ));
                    }
                },
            }
            i = i + 1;
        }
        let ghost linked = res;
        res.update_world();
        proof {
            assert forall|x: int| 0 <= x < n implies #[trigger] res.local_at(x) == pose_of(ns[x].t, ns[x].r) by {
                assert(res.name_at(x) == linked.name_at(x));
            }
            assert(res.parent_links() =~= links);
            assert(res.names_view() =~= names);
            res.lemma_acyclic();
            assert(res.parent_links() == file_links(ftree.nodes@));
            assert(res.names_view() == file_names(ftree.nodes@));
            assert(forall|i: int| 0 <= i < n ==> !#[trigger] res.dirty_at(i));
            assert(forall|i: int| 0 <= i < n ==> #[trigger] res.local_at(i) == pose_of(ns[i].t, ns[i].r));
        }
        Ok(res)
    }

    /// Writes the store out as a file representation, in handle order, with
    /// parents named and local transforms given as translation and Euler
    /// angles.
    pub fn to_file(&self) -> (f: FileTransformTree)
        requires
            self.wf(),
        ensures
            f.version == 1,
            writes(*self, f.nodes@),
    {
        let n = self.len();
        let mut nodes: Vec<FileNode> = Vec::new();
        let mut i: usize = 0;
        while i < n
            invariant
                self.wf(),
                n == self.node_count(),
                i <= n,
                nodes@.len() == i,
                forall|j: int| 0 <= j < i ==> #[trigger] writes_node(*self, j, nodes@[j]),
            decreases n - i,
        {
            let parent = match self.parent(i) {
                Some(p) => Some(self.name(p).clone()),
                None => None,
            };
            let node = FileNode {
                name: self.name(i).clone(),
                parent,
                t: translation_of_pose(self.local(i)),
                r: euler_of_pose(self.local(i)),
            };
            let ghost before = nodes@;
            nodes.push(node);
            proof {
                assert forall|j: int| 0 <= j <= i implies #[trigger] writes_node(*self, j, nodes@[j]) by {
                    if j < i {
                        assert(nodes@[j] == before[j]);
                    } else {
                        assert(nodes@[j] == node);
                    }
                }
            }
            i = i + 1;
        }
        FileTransformTree { version: 1, nodes }
    }
}

} // verus!
