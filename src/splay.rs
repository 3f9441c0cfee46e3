//! The splay tree: an arena of nodes, and the search that splays what it visits to the root.
use crate::node::{Dir, Idx, Node, OptionIdx, IDX_NONE};
use crate::order::{key_order, lemma_cmp, lt, neighbour};
use crate::shape::{
    lemma_frame, lemma_linked_idxs, lemma_ordered_fresh, lemma_replace_child, lemma_root_value,
    lemma_rotate, lemma_search_last, lemma_size, rotated, search_last, with_entry, Shape,
};
use core::cmp::Ordering::{Equal, Greater, Less};
use vstd::prelude::*;

verus! {

/// An ordered map from `K` to `V`, kept as a splay tree over an arena of nodes.
pub struct Splay<K, V> {
    pub(crate) root: OptionIdx,
    pub(crate) nodes: Vec<Node<K, V>>,
    pub(crate) shape: Ghost<Shape>,
}

/// The rotations still owed on the way back up from a search: none, one (from the
/// current node towards the target), or two.
#[derive(Clone, Copy)]
pub enum Path {
    Empty,
    One(Dir),
    Two(Dir, Dir),
}

impl Path {
    pub open spec fn spec_extend(self, dir: Dir) -> Path {
        match self {
            Path::Empty => Path::One(dir),
            Path::One(dir1) => Path::Two(dir, dir1),
            Path::Two(dir1, _) => Path::Two(dir, dir1),
        }
    }

    #[inline]
    pub fn extend(&mut self, dir: Dir)
        ensures
            *final(self) == old(self).spec_extend(dir),
    {
        match *self {
            Path::Empty => *self = Path::One(dir),
            Path::One(dir1) => *self = Path::Two(dir, dir1),
            Path::Two(dir1, _) => *self = Path::Two(dir, dir1),
        }
    }
}

/// The subtree that a path leads to from the root of `s`.
pub open spec fn focus(s: Shape, p: Path) -> Shape {
    match p {
        Path::Empty => s,
        Path::One(d) => s.child(d),
        Path::Two(d1, d2) => s.child(d1).child(d2),
    }
}

/// The path leads to a node of `s`.
pub open spec fn path_ok(s: Shape, p: Path) -> bool {
    s is Branch && focus(s, p) is Branch
}

/// The node that a path leads to is in the arena.
pub proof fn lemma_focus<K, V>(t: Shape, p: Path, ns: Seq<Node<K, V>>)
    requires
        t.linked(ns),
        path_ok(t, p),
    ensures
        focus(t, p).linked(ns),
        focus(t, p).idx() < ns.len(),
{
    match p {
        Path::Empty => {},
        Path::One(d) => {
            assert(t.child(d).linked(ns));
        },
        Path::Two(d1, d2) => {
            assert(t.child(d1).linked(ns));
            assert(t.child(d1).child(d2).linked(ns));
        },
    }
}

/// Both arenas hold the same keys and values at the same indices.
pub open spec fn same_entries<K, V>(ns: Seq<Node<K, V>>, ns2: Seq<Node<K, V>>) -> bool {
    &&& ns2.len() == ns.len()
    &&& forall|i: int|
        0 <= i < ns.len() ==> #[trigger] ns2[i].key == ns[i].key && ns2[i].value == ns[i].value
}

/// What a search is for: a key to look up, or an entry to create if its key is missing.
pub enum OrCreate<'a, K, V> {
    Lookup(&'a K),
    Create(K, V),
}

impl<'a, K, V> OrCreate<'a, K, V> {
    pub open spec fn spec_key(&self) -> K {
        match self {
            OrCreate::Lookup(k) => **k,
            OrCreate::Create(k, _) => *k,
        }
    }

    /// The entry to add when the key is missing.
    pub open spec fn spec_entry(&self) -> Option<(K, V)> {
        match self {
            OrCreate::Lookup(_) => None,
            OrCreate::Create(k, v) => Some((*k, *v)),
        }
    }

    #[inline]
    pub fn key(&self) -> (r: &K)
        ensures
            *r == self.spec_key(),
    {
        match self {
            OrCreate::Lookup(k) => k,
            OrCreate::Create(k, _) => &k,
        }
    }

    #[inline]
    pub fn value(self) -> (r: Option<V>)
        ensures
            r == (match self {
                OrCreate::Lookup(_) => None,
                OrCreate::Create(_, v) => Some(v),
            }),
    {
        match self {
            OrCreate::Lookup(_) => None,
            OrCreate::Create(_, value) => Some(value),
        }
    }
}

impl<K: Ord, V> View for Splay<K, V> {
    type V = Map<K, V>;

    /// The entries of the tree.
    open(crate) spec fn view(&self) -> Map<K, V> {
        self.shape@.to_map(self.nodes@)
    }
}

impl<K: Ord, V> Splay<K, V> {
    /// The arena's links form one ordered tree, whose root is `root`, and every node of
    /// the arena belongs to it.
    pub open(crate) spec fn wf(&self) -> bool {
        &&& key_order::<K>()
        &&& self.shape@.valid(self.nodes@)
        &&& self.root == self.shape@.link()
        &&& self.nodes@.len() == self.shape@.size()
    }

    /// The key held by the root node, if the tree is not empty.
    pub open(crate) spec fn root_key(&self) -> Option<K> {
        match self.shape@ {
            Shape::Leaf => None,
            Shape::Branch(_, i, _) => Some(self.nodes@[i as int].key),
        }
    }

    /// The key and value held in each slot of the arena. Nodes never move between
    /// slots: a search only relinks them.
    pub open(crate) spec fn slots(&self) -> Seq<(K, V)> {
        self.nodes@.map_values(|n: Node<K, V>| (n.key, n.value))
    }

    /// The height of the tree: the number of nodes on its longest path from the root.
    pub open(crate) spec fn height(&self) -> nat {
        self.shape@.height()
    }

    /// The entries of the tree in order, left to right.
    pub open(crate) spec fn entries(&self) -> Seq<(K, V)> {
        self.shape@.entries(self.nodes@)
    }

    /// An empty tree.
    pub fn new() -> (r: Self)
        requires
            key_order::<K>(),
        ensures
            r.wf(),
            r@ == Map::<K, V>::empty(),
            r.height() == 0,
            r.entries() == Seq::<(K, V)>::empty(),
            r.root_key() is None,
    {
        Splay { root: OptionIdx(IDX_NONE), nodes: Vec::new(), shape: Ghost(Shape::Leaf) }
    }

    #[inline]
    fn child(&self, idx: Idx, dir: Dir) -> (r: OptionIdx)
        requires
            idx < self.nodes@.len(),
        ensures
            r == self.nodes@[idx as int].link(dir),
    {
        match dir {
            Dir::Left => self.nodes[idx].left,
            Dir::Right => self.nodes[idx].right,
        }
    }

    #[inline]
    fn set_child(&mut self, idx: Idx, dir: Dir, to: OptionIdx)
        requires
            idx < old(self).nodes@.len(),
        ensures
            final(self).nodes@ == old(self).nodes@.update(
                idx as int,
                old(self).nodes@[idx as int].with_link(dir, to),
            ),
            final(self).root == old(self).root,
            final(self).shape == old(self).shape,
    {
        match dir {
            Dir::Left => self.nodes[idx].left = to,
            Dir::Right => self.nodes[idx].right = to,
        };
    }

    #[inline]
    fn new_node(&mut self, key: K, value: V) -> (r: Idx)
        requires
            old(self).nodes@.len() < IDX_NONE,
        ensures
            r == old(self).nodes@.len(),
            final(self).nodes@ == old(self).nodes@.push(
                Node { key, value, left: OptionIdx(IDX_NONE), right: OptionIdx(IDX_NONE) },
            ),
            final(self).root == old(self).root,
            final(self).shape == old(self).shape,
    {
        let node = Node { key, value, left: OptionIdx(IDX_NONE), right: OptionIdx(IDX_NONE) };
        self.nodes.push(node);
        self.nodes.len() - 1
    }

    /// Rotates the child `lower` of `upper` on side `dir` into `upper`'s place, by
    /// relinking the two nodes; returns `lower`, the new root of the subtree.
    #[inline]
    fn rotate(&mut self, upper: Idx, dir: Dir) -> (lower: Idx)
        requires
            upper < old(self).nodes@.len(),
            old(self).nodes@[upper as int].link(dir).0 < old(self).nodes@.len(),
            old(self).nodes@[upper as int].link(dir).0 != upper,
            old(self).nodes@[upper as int].link(dir).0 != IDX_NONE,
        ensures
            lower == old(self).nodes@[upper as int].link(dir).0,
            final(self).nodes@ == rotated(old(self).nodes@, upper, lower, dir),
            final(self).root == old(self).root,
            final(self).shape == old(self).shape,
    {
        let lower = self.child(upper, dir).to_option().unwrap();
        let grand = self.child(lower, dir.flip());
        self.set_child(upper, dir, grand);
        self.set_child(lower, dir.flip(), OptionIdx(upper));
        lower
    }

    /// One splay step: where two rotations are owed below `idx`, the node that they
    /// lead to is brought up into `idx`'s place (zig-zig or zig-zag) and nothing is owed
    /// any more. Returns the root of the subtree and its new shape.
    #[inline]
    fn splay_step(&mut self, idx: Idx, path: &mut Path, Ghost(s): Ghost<Shape>) -> (r: (
        Idx,
        Ghost<Shape>,
    ))
        requires
            key_order::<K>(),
            s.valid(old(self).nodes@),
            s.idx() == idx,
            path_ok(s, *old(path)),
        ensures
            r.1@.valid(final(self).nodes@),
            r.1@.link() == OptionIdx(r.0),
            r.1@.to_map(final(self).nodes@) == s.to_map(old(self).nodes@),
            r.1@.idxs() == s.idxs(),
            r.1@.size() == s.size(),
            same_entries(old(self).nodes@, final(self).nodes@),
            forall|i: Idx| #![trigger final(self).nodes@[i as int]]
                i < old(self).nodes@.len() && !s.idxs().contains(i) ==> final(self).nodes@[i as int]
                    == old(self).nodes@[i as int],
            *final(path) == (if *old(path) is Two {
                Path::Empty
            } else {
                *old(path)
            }),
            path_ok(r.1@, *final(path)),
            focus(r.1@, *final(path)).idx() == focus(s, *old(path)).idx(),
            !(*old(path) is Two) ==> final(self).nodes@ == old(self).nodes@ && r.0 == idx && r.1@
                == s,
            *old(path) matches Path::Two(d1, d2) ==> r.1@ == if d1 == d2 {
                s.rotate(d1).rotate(d1)
            } else {
                s.with_child(d1, s.child(d1).rotate(d2)).rotate(d1)
            },
            final(self).root == old(self).root,
            final(self).shape == old(self).shape,
    {
        let ghost ns0 = self.nodes@;
        match *path {
            Path::Empty | Path::One(_) => (idx, Ghost(s)),
            Path::Two(dir1, dir2) => {
                let root: Idx;
                let ghost t: Shape;
                if dir1 == dir2 {
                    proof {
                        lemma_rotate(s, dir1, ns0);
                    }
                    let ghost s1 = s.rotate(dir1);
                    let p = self.rotate(idx, dir1);
                    let ghost ns1 = self.nodes@;
                    proof {
                        lemma_rotate(s1, dir1, ns1);
                    }
                    root = self.rotate(p, dir1);
                    proof {
                        t = s1.rotate(dir1);
                    }
                } else {
                    let c = Ghost(s.child(dir1));
                    proof {
                        lemma_rotate(s, dir1, ns0);
                        lemma_rotate(c@, dir2, ns0);
                        lemma_ordered_fresh(s, ns0);
                        lemma_linked_idxs(s, ns0);
                    }
                    let next = self.child(idx, dir1).to_option().unwrap();
                    let t_idx = self.rotate(next, dir2);
                    let ghost c1 = c@.rotate(dir2);
                    let ghost ns1 = self.nodes@;
                    self.set_child(idx, dir1, OptionIdx(t_idx));
                    let ghost ns2 = self.nodes@;
                    proof {
                        let o = s.child(dir1.spec_flip());
                        lemma_linked_idxs(c@, ns0);
                        assert(!c@.idxs().contains(idx));
                        assert(!o.idxs().contains(idx));
                        lemma_linked_idxs(o, ns0);
                        assert(c@.idxs().disjoint(o.idxs()));
                        assert(c@.idxs().contains(next) && c@.idxs().contains(t_idx));
                        assert forall|j: Idx| #[trigger] c1.idxs().contains(j) implies j < ns1.len()
                            && j < ns2.len() && ns2[j as int] == ns1[j as int] by {
                            assert(c@.idxs().contains(j));
                        }
                        assert forall|j: Idx| #[trigger] o.idxs().contains(j) implies ns2[j as int]
                            == ns0[j as int] by {
                            assert(!c@.idxs().contains(j));
                        }
                        lemma_frame(c1, ns1, ns2);
                        lemma_replace_child(s, dir1, c1, ns0, ns2, None);
                    }
                    let ghost s1 = s.with_child(dir1, c1);
                    proof {
                        lemma_rotate(s1, dir1, ns2);
                    }
                    root = self.rotate(idx, dir1);
                    proof {
                        t = s1.rotate(dir1);
                    }
                }
                *path = Path::Empty;
                (root, Ghost(t))
            },
        }
    }

    /// Searches the subtree `s` rooted at `node_idx` for the key of `create`, adding
    /// the entry of `create` where the key is missing, and splays on the way back up.
    /// Returns the new root of the subtree, the value of `create` where its key was
    /// already there, and the subtree's new shape; `path` tells what is still owed.
    fn visit_inner(
        &mut self,
        node_idx: Idx,
        create: OrCreate<K, V>,
        path: &mut Path,
        Ghost(s): Ghost<Shape>,
    ) -> (r: (Idx, Option<V>, Ghost<Shape>))
        requires
            key_order::<K>(),
            s.valid(old(self).nodes@),
            s.idx() == node_idx,
            s is Branch,
            *old(path) == Path::Empty,
            create is Create ==> old(self).nodes@.len() < IDX_NONE,
        ensures
            ({
                let ns = old(self).nodes@;
                let ns2 = final(self).nodes@;
                let k = create.spec_key();
                let m = s.to_map(ns);
                let ins = if m.contains_key(k) {
                    None
                } else {
                    create.spec_entry()
                };
                let t = r.2@;
                &&& t.valid(ns2)
                &&& t.link() == OptionIdx(r.0)
                &&& t.to_map(ns2) == with_entry(m, ins)
                &&& t.idxs() == if ins is Some {
                    s.idxs().insert(ns.len() as Idx)
                } else {
                    s.idxs()
                }
                &&& t.size() == s.size() + if ins is Some {
                    1nat
                } else {
                    0nat
                }
                &&& ns2.len() == ns.len() + if ins is Some {
                    1nat
                } else {
                    0nat
                }
                &&& forall|i: Idx| #![trigger ns2[i as int]]
                    i < ns.len() && !s.idxs().contains(i) ==> ns2[i as int] == ns[i as int]
                &&& r.1 == if m.contains_key(k) {
                    match create.spec_entry() {
                        Some((_, v)) => Some(v),
                        None => None,
                    }
                } else {
                    None
                }
                &&& !(*final(path) is Two)
                &&& path_ok(t, *final(path))
                &&& t.to_map(ns2).contains_key(k) ==> ns2[focus(t, *final(path)).idx() as int].key
                    == k
                &&& forall|i: int| #![trigger ns2[i]]
                    0 <= i < ns.len() ==> ns2[i].key == ns[i].key && ns2[i].value == ns[i].value
                &&& ins matches Some((k2, v2)) ==> ns2[ns.len() as int].key == k2
                    && ns2[ns.len() as int].value == v2
                &&& ins is None ==> focus(t, *final(path)).idx() == search_last(s, ns, k)
                &&& ins is Some ==> focus(t, *final(path)).idx() == ns.len()
                &&& k == ns[node_idx as int].key ==> {
                    &&& ns2 == ns
                    &&& r.0 == node_idx
                    &&& t == s
                    &&& *final(path) == Path::Empty
                }
            }),
        decreases s, 1nat,
    {
        let ghost ns = self.nodes@;
        proof {
            lemma_linked_idxs(s, ns);
        }
        let key = create.key();
        let ord = key.cmp(&self.nodes[node_idx].key);
        proof {
            lemma_cmp(create.spec_key(), ns[node_idx as int].key);
        }
        match ord {
            Equal => {
                *path = Path::Empty;
                proof {
                    let k = create.spec_key();
                    assert(k == ns[node_idx as int].key);
                    assert(search_last(s, ns, k) == node_idx);
                    assert(s.to_map(ns).contains_key(k));
                }
                (node_idx, create.value(), Ghost(s))
            },
            Less => {
                let (value, Ghost(t1)) = self.visit_inner_helper(
                    node_idx,
                    create,
                    Dir::Left,
                    path,
                    Ghost(s),
                );
                let ghost p1 = *path;
                let ghost ns1 = self.nodes@;
                proof {
                    lemma_focus(t1, p1, ns1);
                }
                let (root, t) = self.splay_step(node_idx, path, Ghost(t1));
                proof {
                    let ns2 = self.nodes@;
                    assert forall|i: int| 0 <= i < ns1.len() implies #[trigger] ns2[i].key
                        == ns1[i].key && ns2[i].value == ns1[i].value by {}
                    let k = create.spec_key();
                    let ins = if s.to_map(ns).contains_key(k) {
                        None
                    } else {
                        create.spec_entry()
                    };
                    assert(forall|i: int| #![trigger ns2[i]]
                        0 <= i < ns.len() ==> ns2[i].key == ns[i].key && ns2[i].value
                            == ns[i].value);
                    assert(ins matches Some((k2, v2)) ==> ns2[ns.len() as int].key == k2
                        && ns2[ns.len() as int].value == v2);
                    assert(ins is None ==> focus(t@, *path).idx() == search_last(s, ns, k));
                    assert(ins is Some ==> focus(t@, *path).idx() == ns.len());
                    assert(k != ns[node_idx as int].key);
                }
                (root, value, t)
            },
            Greater => {
                let (value, Ghost(t1)) = self.visit_inner_helper(
                    node_idx,
                    create,
                    Dir::Right,
                    path,
                    Ghost(s),
                );
                let ghost p1 = *path;
                let ghost ns1 = self.nodes@;
                proof {
                    lemma_focus(t1, p1, ns1);
                }
                let (root, t) = self.splay_step(node_idx, path, Ghost(t1));
                proof {
                    let ns2 = self.nodes@;
                    assert forall|i: int| 0 <= i < ns1.len() implies #[trigger] ns2[i].key
                        == ns1[i].key && ns2[i].value == ns1[i].value by {}
                    let k = create.spec_key();
                    let ins = if s.to_map(ns).contains_key(k) {
                        None
                    } else {
                        create.spec_entry()
                    };
                    assert(forall|i: int| #![trigger ns2[i]]
                        0 <= i < ns.len() ==> ns2[i].key == ns[i].key && ns2[i].value
                            == ns[i].value);
                    assert(ins matches Some((k2, v2)) ==> ns2[ns.len() as int].key == k2
                        && ns2[ns.len() as int].value == v2);
                    assert(ins is None ==> focus(t@, *path).idx() == search_last(s, ns, k));
                    assert(ins is Some ==> focus(t@, *path).idx() == ns.len());
                    assert(k != ns[node_idx as int].key);
                }
                (root, value, t)
            },
        }
    }

    /// Goes on with the search below `node_idx` on side `dir`, where the key of
    /// `create` must be; a missing child is where a new entry is added. The subtree
    /// keeps `node_idx` as its root; returns the value of `create` where its key was
    /// already there, and the subtree's new shape.
    fn visit_inner_helper(
        &mut self,
        node_idx: Idx,
        create: OrCreate<K, V>,
        dir: Dir,
        path: &mut Path,
        Ghost(s): Ghost<Shape>,
    ) -> (r: (Option<V>, Ghost<Shape>))
        requires
            key_order::<K>(),
            s.valid(old(self).nodes@),
            s.idx() == node_idx,
            s is Branch,
            *old(path) == Path::Empty,
            create is Create ==> old(self).nodes@.len() < IDX_NONE,
            dir == Dir::Left ==> lt(create.spec_key(), old(self).nodes@[node_idx as int].key),
            dir == Dir::Right ==> lt(old(self).nodes@[node_idx as int].key, create.spec_key()),
        ensures
            ({
                let ns = old(self).nodes@;
                let ns2 = final(self).nodes@;
                let k = create.spec_key();
                let m = s.to_map(ns);
                let ins = if m.contains_key(k) {
                    None
                } else {
                    create.spec_entry()
                };
                let t = r.1@;
                &&& t.valid(ns2)
                &&& t.idx() == node_idx
                &&& t.to_map(ns2) == with_entry(m, ins)
                &&& t.idxs() == if ins is Some {
                    s.idxs().insert(ns.len() as Idx)
                } else {
                    s.idxs()
                }
                &&& t.size() == s.size() + if ins is Some {
                    1nat
                } else {
                    0nat
                }
                &&& ns2.len() == ns.len() + if ins is Some {
                    1nat
                } else {
                    0nat
                }
                &&& forall|i: Idx| #![trigger ns2[i as int]]
                    i < ns.len() && !s.idxs().contains(i) ==> ns2[i as int] == ns[i as int]
                &&& r.0 == if m.contains_key(k) {
                    match create.spec_entry() {
                        Some((_, v)) => Some(v),
                        None => None,
                    }
                } else {
                    None
                }
                &&& path_ok(t, *final(path))
                &&& t.to_map(ns2).contains_key(k) ==> ns2[focus(t, *final(path)).idx() as int].key
                    == k
                &&& forall|i: int| #![trigger ns2[i]]
                    0 <= i < ns.len() ==> ns2[i].key == ns[i].key && ns2[i].value == ns[i].value
                &&& ins matches Some((k2, v2)) ==> ns2[ns.len() as int].key == k2
                    && ns2[ns.len() as int].value == v2
                &&& ins is None ==> focus(t, *final(path)).idx() == search_last(s, ns, k)
                &&& ins is Some ==> focus(t, *final(path)).idx() == ns.len()
                &&& s.child(dir) is Leaf ==> match create.spec_entry() {
                    None => ns2 == ns && t == s && *final(path) == *old(path),
                    Some((k2, v2)) => {
                        &&& ns2 == ns.push(
                            Node {
                                key: k2,
                                value: v2,
                                left: OptionIdx(IDX_NONE),
                                right: OptionIdx(IDX_NONE),
                            },
                        ).update(
                            node_idx as int,
                            ns[node_idx as int].with_link(dir, OptionIdx(ns.len() as Idx)),
                        )
                        &&& t == s.with_child(
                            dir,
                            Shape::Branch(
                                Box::new(Shape::Leaf),
                                ns.len() as Idx,
                                Box::new(Shape::Leaf),
                            ),
                        )
                        &&& *final(path) == Path::One(dir)
                    },
                }
            }),
        decreases s, 0nat,
    {
        let ghost ns = self.nodes@;
        let ghost k = create.spec_key();
        let ghost ki = ns[node_idx as int].key;
        let ghost c = s.child(dir);
        let ghost o = s.child(dir.spec_flip());
        proof {
            lemma_linked_idxs(s, ns);
            lemma_linked_idxs(c, ns);
            lemma_linked_idxs(o, ns);
            lemma_ordered_fresh(s, ns);
            lemma_cmp(k, ki);
            lemma_cmp(k, k);
            // The key is in the subtree exactly where it is in the child on side `dir`.
            assert forall|x: K| #[trigger] o.to_map(ns).contains_key(x) implies x != k by {
                if dir == Dir::Left {
                    crate::order::lemma_lt_trans(k, ki, x);
                } else {
                    crate::order::lemma_lt_trans(x, ki, k);
                }
            }
            let (l, r) = match s {
                Shape::Branch(l, _, r) => (*l, *r),
                _ => (s, s),
            };
            assert(s.to_map(ns) == l.to_map(ns).union_prefer_right(r.to_map(ns)).insert(
                ki,
                ns[node_idx as int].value,
            ));
            assert(!o.to_map(ns).contains_key(k));
            assert(k != ki);
            if dir == Dir::Left {
                assert(c == l && o == r);
            } else {
                assert(o == l && c == r);
            }
            assert(s.to_map(ns).contains_key(k) == c.to_map(ns).contains_key(k));
            assert(!c.idxs().contains(node_idx));
            assert(!o.idxs().contains(node_idx));
            assert(c.idxs().disjoint(o.idxs()));
        }
        match self.child(node_idx, dir).to_option() {
            Some(idx) => {
                let (c_root, value, Ghost(c2)) = self.visit_inner(idx, create, path, Ghost(c));
                let ghost ns1 = self.nodes@;
                self.set_child(node_idx, dir, OptionIdx(c_root));
                let ghost ns2 = self.nodes@;
                let ghost p1 = *path;
                path.extend(dir);
                proof {
                    let ins = if s.to_map(ns).contains_key(k) {
                        None
                    } else {
                        create.spec_entry()
                    };
                    lemma_linked_idxs(c2, ns1);
                    assert forall|j: Idx| #[trigger] c2.idxs().contains(j) implies j < ns1.len()
                        && j < ns2.len() && ns2[j as int] == ns1[j as int] by {
                        if j != ns.len() {
                            assert(c.idxs().contains(j));
                        }
                    }
                    lemma_frame(c2, ns1, ns2);
                    assert forall|j: Idx| #[trigger] o.idxs().contains(j) implies ns2[j as int]
                        == ns[j as int] by {
                        assert(!c.idxs().contains(j));
                    }
                    lemma_replace_child(s, dir, c2, ns, ns2, ins);
                    let t = s.with_child(dir, c2);
                    assert(t.idxs() =~= if ins is Some {
                        s.idxs().insert(ns.len() as Idx)
                    } else {
                        s.idxs()
                    });
                    assert(focus(t, *path) == focus(c2, p1));
                    lemma_focus(c2, p1, ns1);
                    assert(ns2[focus(c2, p1).idx() as int].key == ns1[focus(
                        c2,
                        p1,
                    ).idx() as int].key);
                    if t.to_map(ns2).contains_key(k) {
                        assert(c2.to_map(ns2).contains_key(k));
                    }
                }
                (value, Ghost(s.with_child(dir, c2)))
            },
            None => {
                if let OrCreate::Create(k, v) = create {
                    let node = self.new_node(k, v);
                    let ghost ns1 = self.nodes@;
                    self.set_child(node_idx, dir, OptionIdx(node));
                    let ghost ns2 = self.nodes@;
                    *path = Path::One(dir);
                    let ghost c2 = Shape::Branch(Box::new(Shape::Leaf), node, Box::new(Shape::Leaf));
                    proof {
                        assert(node != node_idx);
                        assert(ns2[node as int] == ns1[node as int]);
                        assert(Shape::Leaf.linked(ns2));
                        assert(Shape::Leaf.ordered(ns2));
                        assert(Shape::Leaf.to_map(ns2) == Map::<K, V>::empty());
                        assert(c2.linked(ns2));
                        assert(c2.valid(ns2));
                        assert(c2.to_map(ns2) =~= with_entry(c.to_map(ns), Some((k, v))));
                        assert forall|j: Idx| #[trigger] o.idxs().contains(j) implies ns2[j as int]
                            == ns[j as int] by {}
                        lemma_replace_child(s, dir, c2, ns, ns2, Some((k, v)));
                        assert(s.with_child(dir, c2).idxs() =~= s.idxs().insert(ns.len() as Idx));
                    }
                    (None, Ghost(s.with_child(dir, c2)))
                } else {
                    (None, Ghost(s))
                }
            },
        }
    }

    /// Pays the one rotation still owed at the root, if any.
    #[inline]
    fn splay_finish(&mut self, path: &Path)
        requires
            old(self).wf(),
            path_ok(old(self).shape@, *path),
            !(*path is Two),
        ensures
            final(self).wf(),
            final(self)@ == old(self)@,
            same_entries(old(self).nodes@, final(self).nodes@),
            final(self).shape@.idx() == focus(old(self).shape@, *path).idx(),
            final(self).shape@ is Branch,
            *path is Empty ==> {
                &&& final(self).nodes@ == old(self).nodes@
                &&& final(self).root == old(self).root
                &&& final(self).shape == old(self).shape
            },
    {
        match path {
            Path::Empty => {},
            Path::Two(..) => {},
            Path::One(dir) => {
                let root = self.root.to_option().unwrap();
                proof {
                    lemma_rotate(self.shape@, *dir, self.nodes@);
                }
                let new_root = self.rotate(root, *dir);
                self.root = OptionIdx(new_root);
                self.shape = Ghost(self.shape@.rotate(*dir));
            },
        }
    }

    /// Searches for the key of `create`, adds the entry of `create` where the key is
    /// missing, and splays the node last visited to the root. Returns the value of
    /// `create` where its key was already there.
    fn visit(&mut self, create: OrCreate<K, V>) -> (r: Option<V>)
        requires
            old(self).wf(),
            create is Create ==> old(self)@.dom().len() < usize::MAX,
        ensures
            ({
                let k = create.spec_key();
                let m = old(self)@;
                let ns = old(self).nodes@;
                let ns2 = final(self).nodes@;
                let ins = if m.contains_key(k) {
                    None
                } else {
                    create.spec_entry()
                };
                &&& final(self).wf()
                &&& final(self)@ == with_entry(
                    m,
                    if m.contains_key(k) {
                        None
                    } else {
                        create.spec_entry()
                    },
                )
                &&& r == if m.contains_key(k) {
                    match create.spec_entry() {
                        Some((_, v)) => Some(v),
                        None => None,
                    }
                } else {
                    None
                }
                &&& final(self)@.contains_key(k) ==> final(self).root_key() == Some(k)
                &&& ns2.len() == ns.len() + if ins is Some {
                    1nat
                } else {
                    0nat
                }
                &&& forall|i: int| #![trigger ns2[i]]
                    0 <= i < ns.len() ==> ns2[i].key == ns[i].key && ns2[i].value == ns[i].value
                &&& ins matches Some((k2, v2)) ==> ns2[ns.len() as int].key == k2
                    && ns2[ns.len() as int].value == v2
                &&& ins is None && old(self).shape@ is Branch ==> final(self).shape@.idx()
                    == search_last(old(self).shape@, ns, k)
                &&& ins is None && old(self).shape@ is Leaf ==> {
                    &&& ns2 == ns
                    &&& final(self).root == old(self).root
                    &&& final(self).shape == old(self).shape
                }
            }),
    {
        proof {
            lemma_size(self.shape@, self.nodes@);
            lemma_linked_idxs(self.shape@, self.nodes@);
        }
        match self.root.to_option() {
            Some(root) => {
                let mut path = Path::Empty;
                let (new_root, value, Ghost(t)) = self.visit_inner(
                    root,
                    create,
                    &mut path,
                    Ghost(self.shape@),
                );
                self.root = OptionIdx(new_root);
                self.shape = Ghost(t);
                let ghost ns1 = self.nodes@;
                proof {
                    lemma_focus(t, path, ns1);
                }
                self.splay_finish(&path);
                proof {
                    let ns2 = self.nodes@;
                    assert forall|i: int| 0 <= i < ns1.len() implies #[trigger] ns2[i].key
                        == ns1[i].key && ns2[i].value == ns1[i].value by {}
                    let ns = old(self).nodes@;
                    let k = create.spec_key();
                    let ins = if old(self)@.contains_key(k) {
                        None
                    } else {
                        create.spec_entry()
                    };
                    assert(forall|i: int| #![trigger ns2[i]]
                        0 <= i < ns.len() ==> ns2[i].key == ns[i].key && ns2[i].value
                            == ns[i].value);
                    assert(ins matches Some((k2, v2)) ==> ns2[ns.len() as int].key == k2
                        && ns2[ns.len() as int].value == v2);
                    assert(ins is None ==> self.shape@.idx() == search_last(
                        old(self).shape@,
                        ns,
                        k,
                    ));
                }
                value
            },
            None => match create {
                OrCreate::Lookup(_) => None,
                OrCreate::Create(key, value) => {
                    let root = self.new_node(key, value);
                    self.root = OptionIdx(root);
                    self.shape = Ghost(
                        Shape::Branch(Box::new(Shape::Leaf), root, Box::new(Shape::Leaf)),
                    );
                    proof {
                        assert(Shape::Leaf.linked(self.nodes@));
                        assert(Shape::Leaf.ordered(self.nodes@));
                        assert(Shape::Leaf.to_map(self.nodes@) == Map::<K, V>::empty());
                        assert(self@ =~= Map::<K, V>::empty().insert(key, value));
                    }
                    None
                },
            },
        }
    }

    /// Looks `key` up. The node last visited by the search, which is the node of `key`
    /// where there is one, becomes the root.
    pub fn get(&mut self, key: K) -> (r: Option<&V>)
        requires
            old(self).wf(),
        ensures
            final(self).wf(),
            final(self)@ == old(self)@,
            r is Some <==> old(self)@.contains_key(key),
            r matches Some(v) ==> *v == old(self)@[key],
            old(self)@.contains_key(key) ==> final(self).root_key() == Some(key),
            old(self)@.dom().len() > 0 && !old(self)@.contains_key(key) ==> {
                &&& final(self).root_key() is Some
                &&& neighbour(old(self)@, key, final(self).root_key().unwrap())
            },
            old(self)@.dom().len() == 0 ==> final(self).root_key() is None,
            final(self).slots() == old(self).slots(),
    {
        proof {
            lemma_size(self.shape@, self.nodes@);
            lemma_linked_idxs(self.shape@, self.nodes@);
            if self.shape@ is Branch && !self@.contains_key(key) {
                lemma_search_last(self.shape@, self.nodes@, key);
            }
        }
        self.visit(OrCreate::Lookup(&key));
        proof {
            assert(self.slots() =~= old(self).slots());
        }
        match self.root.to_option() {
            Some(root) => {
                proof {
                    lemma_linked_idxs(self.shape@, self.nodes@);
                    lemma_cmp(self.nodes@[root as int].key, key);
                }
                if self.nodes[root].key == key {
                    Some(&self.nodes[root].value)
                } else {
                    None
                }
            },
            None => None,
        }
    }

    /// Maps `key` to `value`, in place of any value it had. The node of `key` becomes
    /// the root.
    pub fn set(&mut self, key: K, value: V)
        requires
            old(self).wf(),
            old(self)@.dom().len() < usize::MAX,
        ensures
            final(self).wf(),
            final(self)@ == old(self)@.insert(key, value),
            final(self).root_key() == Some(key),
            old(self)@.contains_key(key) ==> {
                &&& final(self).slots().len() == old(self).slots().len()
                &&& forall|i: int|
                    0 <= i < old(self).slots().len() ==> {
                        let after = #[trigger] final(self).slots()[i];
                        let before = old(self).slots()[i];
                        &&& after.0 == before.0
                        &&& before.0 != key ==> after.1 == before.1
                    }
            },
            !old(self)@.contains_key(key) ==> final(self).slots() == old(self).slots().push(
                (key, value),
            ),
    {
        let ghost ns0 = self.nodes@;
        if let Some(value) = self.visit(OrCreate::Create(key, value)) {
            proof {
                lemma_linked_idxs(self.shape@, self.nodes@);
            }
            let root = self.root.to_option().unwrap();
            proof {
                lemma_root_value(self.shape@, self.nodes@, value);
            }
            self.nodes[root].value = value;
            proof {
                assert(self.slots().len() == old(self).slots().len());
            }
        } else {
            proof {
                assert(self.slots() =~= old(self).slots().push((key, value)));
            }
        }
    }

    fn node_depth(&self, idx: OptionIdx, Ghost(s): Ghost<Shape>) -> (r: u32)
        requires
            s.linked(self.nodes@),
            idx == s.link(),
            s.height() <= u32::MAX,
        ensures
            r == s.height(),
        decreases s,
    {
        proof {
            lemma_linked_idxs(s, self.nodes@);
        }
        match idx.to_option() {
            None => 0,
            Some(idx) => {
                let l = self.node_depth(self.nodes[idx].left, Ghost(s.child(Dir::Left)));
                let r = self.node_depth(self.nodes[idx].right, Ghost(s.child(Dir::Right)));
                1 + if l >= r {
                    l
                } else {
                    r
                }
            },
        }
    }

    /// The height of the tree: 0 when it is empty, else one more than the greater
    /// height of the root's two subtrees.
    pub fn depth(&self) -> (r: u32)
        requires
            self.wf(),
            self@.dom().len() <= u32::MAX,
        ensures
            r == self.height(),
    {
        proof {
            lemma_size(self.shape@, self.nodes@);
        }
        self.node_depth(self.root, Ghost(self.shape@))
    }
}

} // verus!
