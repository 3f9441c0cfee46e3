//! The tree that the arena's links describe, as a ghost datatype.
use crate::node::{Dir, Idx, Node, OptionIdx, IDX_NONE};
use crate::order::{key_order, lemma_cmp, lemma_lt_trans, lt, neighbour};
use vstd::prelude::*;

verus! {

/// The shape of a subtree: which arena node sits where.
pub enum Shape {
    Leaf,
    Branch(Box<Shape>, Idx, Box<Shape>),
}

impl Shape {
    /// The link that points at this subtree.
    pub open spec fn link(self) -> OptionIdx {
        match self {
            Shape::Leaf => OptionIdx(IDX_NONE),
            Shape::Branch(_, i, _) => OptionIdx(i),
        }
    }

    pub open spec fn child(self, d: Dir) -> Shape {
        match self {
            Shape::Leaf => Shape::Leaf,
            Shape::Branch(l, _, r) => match d {
                Dir::Left => *l,
                Dir::Right => *r,
            },
        }
    }

    pub open spec fn idx(self) -> Idx {
        match self {
            Shape::Leaf => IDX_NONE,
            Shape::Branch(_, i, _) => i,
        }
    }

    pub open spec fn idxs(self) -> Set<Idx>
        decreases self,
    {
        match self {
            Shape::Leaf => Set::empty(),
            Shape::Branch(l, i, r) => l.idxs().union(r.idxs()).insert(i),
        }
    }

    pub open spec fn height(self) -> nat
        decreases self,
    {
        match self {
            Shape::Leaf => 0,
            Shape::Branch(l, _, r) => {
                let hl = l.height();
                let hr = r.height();
                1 + if hl >= hr {
                    hl
                } else {
                    hr
                }
            },
        }
    }

    pub open spec fn size(self) -> nat
        decreases self,
    {
        match self {
            Shape::Leaf => 0,
            Shape::Branch(l, _, r) => l.size() + 1 + r.size(),
        }
    }

    /// Every node of the shape is in `ns`, and its links name its children.
    pub open spec fn linked<K, V>(self, ns: Seq<Node<K, V>>) -> bool
        decreases self,
    {
        match self {
            Shape::Leaf => true,
            Shape::Branch(l, i, r) => {
                &&& i < ns.len()
                &&& i != IDX_NONE
                &&& ns[i as int].left == l.link()
                &&& ns[i as int].right == r.link()
                &&& l.linked(ns)
                &&& r.linked(ns)
            },
        }
    }

    /// The entries of the subtree as a map from key to value.
    pub open spec fn to_map<K, V>(self, ns: Seq<Node<K, V>>) -> Map<K, V>
        decreases self,
    {
        match self {
            Shape::Leaf => Map::empty(),
            Shape::Branch(l, i, r) => l.to_map(ns).union_prefer_right(r.to_map(ns)).insert(
                ns[i as int].key,
                ns[i as int].value,
            ),
        }
    }

    /// The entries of the subtree, left to right.
    pub open spec fn entries<K, V>(self, ns: Seq<Node<K, V>>) -> Seq<(K, V)>
        decreases self,
    {
        match self {
            Shape::Leaf => Seq::empty(),
            Shape::Branch(l, i, r) => l.entries(ns) + seq![(ns[i as int].key, ns[i as int].value)]
                + r.entries(ns),
        }
    }

    /// Search-tree order: smaller keys to the left, greater keys to the right.
    pub open spec fn ordered<K: Ord, V>(self, ns: Seq<Node<K, V>>) -> bool
        decreases self,
    {
        match self {
            Shape::Leaf => true,
            Shape::Branch(l, i, r) => {
                &&& forall|k: K| #[trigger]
                    l.to_map(ns).contains_key(k) ==> lt(k, ns[i as int].key)
                &&& forall|k: K| #[trigger]
                    r.to_map(ns).contains_key(k) ==> lt(ns[i as int].key, k)
                &&& l.ordered(ns)
                &&& r.ordered(ns)
            },
        }
    }

    /// A linked, ordered subtree.
    pub open spec fn valid<K: Ord, V>(self, ns: Seq<Node<K, V>>) -> bool {
        self.linked(ns) && self.ordered(ns)
    }

    /// The shape after the child on side `d` is rotated up into this node's place.
    pub open spec fn rotate(self, d: Dir) -> Shape {
        match (self, d) {
            (Shape::Branch(l, y, c), Dir::Left) => match *l {
                Shape::Branch(a, x, b) => Shape::Branch(
                    a,
                    x,
                    Box::new(Shape::Branch(b, y, c)),
                ),
                Shape::Leaf => self,
            },
            (Shape::Branch(a, y, r), Dir::Right) => match *r {
                Shape::Branch(b, x, c) => Shape::Branch(
                    Box::new(Shape::Branch(a, y, b)),
                    x,
                    c,
                ),
                Shape::Leaf => self,
            },
            _ => self,
        }
    }

    /// The same node with the child on side `d` replaced.
    pub open spec fn with_child(self, d: Dir, c: Shape) -> Shape {
        match self {
            Shape::Leaf => Shape::Leaf,
            Shape::Branch(l, i, r) => match d {
                Dir::Left => Shape::Branch(Box::new(c), i, r),
                Dir::Right => Shape::Branch(l, i, Box::new(c)),
            },
        }
    }
}

/// A linked subtree uses only nodes that are in the arena.
pub proof fn lemma_linked_idxs<K, V>(s: Shape, ns: Seq<Node<K, V>>)
    requires
        s.linked(ns),
    ensures
        forall|i: Idx| #[trigger] s.idxs().contains(i) ==> i < ns.len() && i != IDX_NONE,
        s.link().spec_option() == (match s {
            Shape::Leaf => None,
            Shape::Branch(_, i, _) => Some(i),
        }),
    decreases s,
{
    if let Shape::Branch(l, i, r) = s {
        lemma_linked_idxs(*l, ns);
        lemma_linked_idxs(*r, ns);
        assert forall|j: Idx| #[trigger] s.idxs().contains(j) implies j < ns.len() && j != IDX_NONE by {
            if j != i && !l.idxs().contains(j) {
                assert(r.idxs().contains(j));
            }
        }
    }
}

/// A node's key is among the keys of any subtree that holds it.
pub proof fn lemma_idx_key<K, V>(s: Shape, ns: Seq<Node<K, V>>, j: Idx)
    requires
        s.linked(ns),
        s.idxs().contains(j),
    ensures
        s.to_map(ns).contains_key(ns[j as int].key),
    decreases s,
{
    if let Shape::Branch(l, i, r) = s {
        if j != i {
            if l.idxs().contains(j) {
                lemma_idx_key(*l, ns, j);
            } else {
                lemma_idx_key(*r, ns, j);
            }
        }
    }
}

/// What a subtree means depends only on its own nodes.
pub proof fn lemma_frame<K: Ord, V>(s: Shape, ns1: Seq<Node<K, V>>, ns2: Seq<Node<K, V>>)
    requires
        s.linked(ns1),
        forall|i: Idx| #[trigger]
            s.idxs().contains(i) ==> i < ns1.len() && i < ns2.len() && ns2[i as int] == ns1[i as int],
    ensures
        s.linked(ns2),
        s.to_map(ns2) == s.to_map(ns1),
        s.entries(ns2) == s.entries(ns1),
        s.ordered(ns2) == s.ordered(ns1),
    decreases s,
{
    if let Shape::Branch(l, i, r) = s {
        assert(s.idxs().contains(i));
        assert forall|j: Idx| #[trigger] l.idxs().contains(j) implies s.idxs().contains(j) by {}
        assert forall|j: Idx| #[trigger] r.idxs().contains(j) implies s.idxs().contains(j) by {}
        lemma_frame(*l, ns1, ns2);
        lemma_frame(*r, ns1, ns2);
    }
}

/// In an ordered subtree, every node has its own index: none appears twice.
pub proof fn lemma_ordered_fresh<K: Ord, V>(s: Shape, ns: Seq<Node<K, V>>)
    requires
        key_order::<K>(),
        s.valid(ns),
    ensures
        match s {
            Shape::Leaf => true,
            Shape::Branch(l, i, r) => {
                &&& !l.idxs().contains(i)
                &&& !r.idxs().contains(i)
                &&& l.idxs().disjoint(r.idxs())
            },
        },
{
    if let Shape::Branch(l, i, r) = s {
        let ki = ns[i as int].key;
        if l.idxs().contains(i) {
            lemma_idx_key(*l, ns, i);
            lemma_cmp(ki, ki);
        }
        if r.idxs().contains(i) {
            lemma_idx_key(*r, ns, i);
            lemma_cmp(ki, ki);
        }
        assert forall|j: Idx| l.idxs().contains(j) implies !r.idxs().contains(j) by {
            if r.idxs().contains(j) {
                let kj = ns[j as int].key;
                lemma_idx_key(*l, ns, j);
                lemma_idx_key(*r, ns, j);
                lemma_lt_trans(kj, ki, kj);
                lemma_cmp(kj, kj);
            }
        }
    }
}

/// The arena after the child `x` on side `d` of `y` is rotated into `y`'s place.
pub open spec fn rotated<K, V>(ns: Seq<Node<K, V>>, y: Idx, x: Idx, d: Dir) -> Seq<Node<K, V>> {
    let e = d.spec_flip();
    ns.update(y as int, ns[y as int].with_link(d, ns[x as int].link(e))).update(
        x as int,
        ns[x as int].with_link(e, OptionIdx(y)),
    )
}

/// Rotating relinks two nodes and keeps the entries, their order and the search order.
pub proof fn lemma_rotate<K: Ord, V>(s: Shape, d: Dir, ns: Seq<Node<K, V>>)
    requires
        key_order::<K>(),
        s.valid(ns),
        s is Branch,
        s.child(d) is Branch,
    ensures
        ({
            let ns2 = rotated(ns, s.idx(), s.child(d).idx(), d);
            let t = s.rotate(d);
            &&& t.valid(ns2)
            &&& t.to_map(ns2) == s.to_map(ns)
            &&& t.entries(ns2) == s.entries(ns)
            &&& t.idxs() == s.idxs()
            &&& t.size() == s.size()
            &&& t.link() == s.child(d).link()
            &&& t.child(d.spec_flip()).idx() == s.idx()
            &&& ns2.len() == ns.len()
            &&& s.idx() < ns.len()
            &&& s.child(d).idx() < ns.len()
            &&& s.child(d).idx() != s.idx()
            &&& s.child(d).idx() != IDX_NONE
            &&& s.idxs().contains(s.child(d).idx())
            &&& ns[s.idx() as int].link(d) == s.child(d).link()
            &&& t.child(d.spec_flip()).child(d) == s.child(d).child(d.spec_flip())
            &&& t.child(d) == s.child(d).child(d)
        }),
{
    let y = s.idx();
    let x = s.child(d).idx();
    let ns2 = rotated(ns, y, x, d);
    lemma_ordered_fresh(s, ns);
    lemma_ordered_fresh(s.child(d), ns);
    lemma_linked_idxs(s, ns);
    assert(s.idxs().contains(x));
    assert(s.child(d).valid(ns));
    reveal_with_fuel(Shape::idxs, 2);
    reveal_with_fuel(Shape::linked, 2);
    reveal_with_fuel(Shape::to_map, 2);
    reveal_with_fuel(Shape::entries, 2);
    reveal_with_fuel(Shape::ordered, 2);
    reveal_with_fuel(Shape::size, 2);
    let ky = ns[y as int].key;
    let kx = ns[x as int].key;
    match d {
        Dir::Left => {
            let (a, b, c) = match s {
                Shape::Branch(l, _, c) => match *l {
                    Shape::Branch(a, _, b) => (*a, *b, *c),
                    _ => arbitrary(),
                },
                _ => arbitrary(),
            };
            lemma_linked_idxs(a, ns);
            lemma_linked_idxs(b, ns);
            lemma_linked_idxs(c, ns);
            assert(!a.idxs().contains(x) && !a.idxs().contains(y));
            assert(!b.idxs().contains(x) && !b.idxs().contains(y));
            assert(!c.idxs().contains(x) && !c.idxs().contains(y));
            lemma_frame(a, ns, ns2);
            lemma_frame(b, ns, ns2);
            lemma_frame(c, ns, ns2);
            let inner = Shape::Branch(Box::new(b), y, Box::new(c));
            assert(inner.linked(ns2));
            assert(inner.to_map(ns2) =~= b.to_map(ns).union_prefer_right(c.to_map(ns)).insert(
                ky,
                ns[y as int].value,
            ));
            assert(s.child(d).to_map(ns).contains_key(kx));
            assert forall|k: K| #[trigger] c.to_map(ns).contains_key(k) implies lt(kx, k) by {
                lemma_lt_trans(kx, ky, k);
            }
            lemma_cmp(kx, kx);
            lemma_cmp(ky, ky);
            lemma_cmp(kx, ky);
            assert(!c.to_map(ns).contains_key(kx));
            assert(!s.child(d).to_map(ns).contains_key(ky));
            assert forall|k: K| #[trigger] b.to_map(ns).contains_key(k) implies lt(k, ky) && lt(kx, k) by {
                assert(s.child(d).to_map(ns).contains_key(k));
            }
            assert(inner.ordered(ns2));
            assert(s.rotate(d).linked(ns2));
            assert(s.rotate(d).ordered(ns2));
            assert(s.rotate(d).to_map(ns2) =~= s.to_map(ns));
            assert(s.rotate(d).entries(ns2) =~= s.entries(ns));
            assert(s.rotate(d).idxs() =~= s.idxs());
        },
        Dir::Right => {
            let (a, b, c) = match s {
                Shape::Branch(a, _, r) => match *r {
                    Shape::Branch(b, _, c) => (*a, *b, *c),
                    _ => arbitrary(),
                },
                _ => arbitrary(),
            };
            lemma_linked_idxs(a, ns);
            lemma_linked_idxs(b, ns);
            lemma_linked_idxs(c, ns);
            assert(!a.idxs().contains(x) && !a.idxs().contains(y));
            assert(!b.idxs().contains(x) && !b.idxs().contains(y));
            assert(!c.idxs().contains(x) && !c.idxs().contains(y));
            lemma_frame(a, ns, ns2);
            lemma_frame(b, ns, ns2);
            lemma_frame(c, ns, ns2);
            let inner = Shape::Branch(Box::new(a), y, Box::new(b));
            assert(inner.linked(ns2));
            assert(inner.to_map(ns2) =~= a.to_map(ns).union_prefer_right(b.to_map(ns)).insert(
                ky,
                ns[y as int].value,
            ));
            assert(s.child(d).to_map(ns).contains_key(kx));
            assert forall|k: K| #[trigger] a.to_map(ns).contains_key(k) implies lt(k, kx) by {
                lemma_lt_trans(k, ky, kx);
            }
            lemma_cmp(kx, kx);
            lemma_cmp(ky, ky);
            lemma_cmp(kx, ky);
            assert(!a.to_map(ns).contains_key(kx));
            assert(!s.child(d).to_map(ns).contains_key(ky));
            assert forall|k: K| #[trigger] b.to_map(ns).contains_key(k) implies lt(ky, k) && lt(k, kx) by {
                assert(s.child(d).to_map(ns).contains_key(k));
            }
            assert(inner.ordered(ns2));
            assert(s.rotate(d).linked(ns2));
            assert(s.rotate(d).ordered(ns2));
            assert(s.rotate(d).to_map(ns2) =~= s.to_map(ns));
            assert(s.rotate(d).entries(ns2) =~= s.entries(ns));
            assert(s.rotate(d).idxs() =~= s.idxs());
        },
    }
}

/// The map after an optional insertion.
pub open spec fn with_entry<K, V>(m: Map<K, V>, ins: Option<(K, V)>) -> Map<K, V> {
    match ins {
        None => m,
        Some((k, v)) => m.insert(k, v),
    }
}

/// Putting a new subtree in place of a child keeps the whole valid, provided the new
/// subtree holds the old one's entries (and at most one more, on the right side).
pub proof fn lemma_replace_child<K: Ord, V>(
    s: Shape,
    d: Dir,
    c2: Shape,
    ns: Seq<Node<K, V>>,
    ns2: Seq<Node<K, V>>,
    ins: Option<(K, V)>,
)
    requires
        key_order::<K>(),
        s.valid(ns),
        s is Branch,
        c2.valid(ns2),
        ns.len() <= ns2.len(),
        forall|j: Idx| #[trigger]
            s.child(d.spec_flip()).idxs().contains(j) ==> ns2[j as int] == ns[j as int],
        ns2[s.idx() as int] == ns[s.idx() as int].with_link(d, c2.link()),
        c2.to_map(ns2) == with_entry(s.child(d).to_map(ns), ins),
        ins matches Some((k, _)) ==> {
            &&& !s.to_map(ns).contains_key(k)
            &&& d == Dir::Left ==> lt(k, ns[s.idx() as int].key)
            &&& d == Dir::Right ==> lt(ns[s.idx() as int].key, k)
        },
    ensures
        ({
            let t = s.with_child(d, c2);
            &&& t.valid(ns2)
            &&& t.to_map(ns2) == with_entry(s.to_map(ns), ins)
            &&& t.idxs() == s.child(d.spec_flip()).idxs().union(c2.idxs()).insert(s.idx())
            &&& t.link() == s.link()
            &&& t.idx() == s.idx()
            &&& t.child(d) == c2
            &&& t.child(d.spec_flip()) == s.child(d.spec_flip())
            &&& t.size() + s.child(d).size() == s.size() + c2.size()
        }),
{
    let i = s.idx();
    let o = s.child(d.spec_flip());
    let c = s.child(d);
    let ki = ns[i as int].key;
    lemma_linked_idxs(s, ns);
    lemma_linked_idxs(o, ns);
    assert(s.idxs().contains(i));
    lemma_frame(o, ns, ns2);
    let t = s.with_child(d, c2);
    if let Some((k, v)) = ins {
        lemma_cmp(k, ki);
        match d {
            Dir::Left => {
                assert forall|x: K| #[trigger] o.to_map(ns).contains_key(x) implies lt(k, x) by {
                    lemma_lt_trans(k, ki, x);
                }
                lemma_cmp(k, k);
            },
            Dir::Right => {
                assert forall|x: K| #[trigger] o.to_map(ns).contains_key(x) implies lt(x, k) by {
                    lemma_lt_trans(x, ki, k);
                }
                lemma_cmp(k, k);
            },
        }
        assert(!o.to_map(ns).contains_key(k));
    }
    assert(t.linked(ns2));
    assert(t.ordered(ns2));
    assert(t.to_map(ns2) =~= with_entry(s.to_map(ns), ins));
    assert(t.idxs() =~= o.idxs().union(c2.idxs()).insert(i));
}

/// An ordered subtree has one key per node: its map has as many keys as it has nodes.
pub proof fn lemma_size<K: Ord, V>(s: Shape, ns: Seq<Node<K, V>>)
    requires
        key_order::<K>(),
        s.valid(ns),
    ensures
        s.to_map(ns).dom().finite(),
        s.to_map(ns).dom().len() == s.size(),
        s.height() <= s.size(),
    decreases s,
{
    if let Shape::Branch(l, i, r) = s {
        lemma_size(*l, ns);
        lemma_size(*r, ns);
        let ki = ns[i as int].key;
        let ml = l.to_map(ns);
        let mr = r.to_map(ns);
        assert(ml.dom().disjoint(mr.dom())) by {
            assert forall|x: K| ml.dom().contains(x) implies !mr.dom().contains(x) by {
                if mr.dom().contains(x) {
                    lemma_lt_trans(x, ki, x);
                    lemma_cmp(x, x);
                }
            }
        }
        vstd::set_lib::lemma_set_disjoint_lens(ml.dom(), mr.dom());
        assert(ml.union_prefer_right(mr).dom() =~= ml.dom().union(mr.dom()));
        lemma_cmp(ki, ki);
        assert(!ml.union_prefer_right(mr).dom().contains(ki));
    }
}

/// Writing a new value into the root node changes that entry and nothing else.
pub proof fn lemma_root_value<K: Ord, V>(s: Shape, ns: Seq<Node<K, V>>, v: V)
    requires
        key_order::<K>(),
        s.valid(ns),
        s is Branch,
    ensures
        ({
            let i = s.idx() as int;
            let ns2 = ns.update(i, Node { value: v, ..ns[i] });
            &&& s.valid(ns2)
            &&& s.to_map(ns2) == s.to_map(ns).insert(ns[i].key, v)
        }),
{
    let i = s.idx();
    let ns2 = ns.update(i as int, Node { value: v, ..ns[i as int] });
    lemma_ordered_fresh(s, ns);
    lemma_linked_idxs(s, ns);
    if let Shape::Branch(l, _, r) = s {
        lemma_linked_idxs(*l, ns);
        lemma_linked_idxs(*r, ns);
        lemma_frame(*l, ns, ns2);
        lemma_frame(*r, ns, ns2);
    }
    assert(s.to_map(ns2) =~= s.to_map(ns).insert(ns[i as int].key, v));
}

/// The entries of an ordered subtree come in strictly ascending key order, and they
/// are exactly the entries of its map.
pub proof fn lemma_entries<K: Ord, V>(s: Shape, ns: Seq<Node<K, V>>)
    requires
        key_order::<K>(),
        s.valid(ns),
    ensures
        ({
            let e = s.entries(ns);
            let m = s.to_map(ns);
            &&& forall|i: int, j: int| 0 <= i < j < e.len() ==> lt(#[trigger] e[i].0, #[trigger] e[j].0)
            &&& forall|i: int|
                0 <= i < e.len() ==> m.contains_key(#[trigger] e[i].0) && m[e[i].0] == e[i].1
            &&& forall|k: K| #[trigger]
                m.contains_key(k) ==> exists|i: int| 0 <= i < e.len() && (#[trigger] e[i]).0 == k
            &&& e.len() == s.size()
        }),
    decreases s,
{
    if let Shape::Branch(l, x, r) = s {
        lemma_entries(*l, ns);
        lemma_entries(*r, ns);
        let el = l.entries(ns);
        let er = r.entries(ns);
        let ml = l.to_map(ns);
        let mr = r.to_map(ns);
        let kx = ns[x as int].key;
        let e = s.entries(ns);
        let m = s.to_map(ns);
        let n = el.len() as int;
        assert(e == el + seq![(kx, ns[x as int].value)] + er);
        assert(forall|i: int| 0 <= i < n ==> #[trigger] e[i] == el[i]);
        assert(e[n] == (kx, ns[x as int].value));
        assert(forall|i: int| n < i < e.len() ==> #[trigger] e[i] == er[i - n - 1]);
        assert forall|i: int, j: int| 0 <= i < j < e.len() implies lt(
            #[trigger] e[i].0,
            #[trigger] e[j].0,
        ) by {
            if j < n {
            } else if j == n {
                assert(ml.contains_key(el[i].0));
            } else if i < n {
                assert(ml.contains_key(el[i].0));
                assert(mr.contains_key(er[j - n - 1].0));
                lemma_lt_trans(e[i].0, kx, e[j].0);
            } else if i == n {
                assert(mr.contains_key(er[j - n - 1].0));
            } else {
                assert(e[i] == er[i - n - 1]);
                assert(e[j] == er[j - n - 1]);
            }
        }
        assert forall|i: int| 0 <= i < e.len() implies m.contains_key(#[trigger] e[i].0) && m[e[i].0]
            == e[i].1 by {
            let k = e[i].0;
            if i < n {
                assert(ml.contains_key(el[i].0));
                lemma_cmp(k, kx);
                if mr.contains_key(k) {
                    lemma_lt_trans(k, kx, k);
                    lemma_cmp(k, k);
                }
            } else if i > n {
                assert(mr.contains_key(er[i - n - 1].0));
                lemma_cmp(kx, k);
            }
        }
        assert forall|k: K| #[trigger] m.contains_key(k) implies exists|i: int|
            0 <= i < e.len() && (#[trigger] e[i]).0 == k by {
            if k == kx {
                assert(e[n].0 == k);
            } else if mr.contains_key(k) {
                let i = choose|i: int| 0 <= i < er.len() && (#[trigger] er[i]).0 == k;
                assert(e[n + 1 + i] == er[i]);
            } else {
                let i = choose|i: int| 0 <= i < el.len() && (#[trigger] el[i]).0 == k;
                assert(e[i] == el[i]);
            }
        }
    }
}

/// The last node that a search for `k` visits: the node of `k`, or the node whose
/// missing child is where `k` would go.
pub open spec fn search_last<K: Ord, V>(s: Shape, ns: Seq<Node<K, V>>, k: K) -> Idx
    decreases s,
{
    match s {
        Shape::Leaf => IDX_NONE,
        Shape::Branch(l, i, r) => {
            let ki = ns[i as int].key;
            if k == ki {
                i
            } else if lt(k, ki) {
                if *l is Leaf {
                    i
                } else {
                    search_last(*l, ns, k)
                }
            } else {
                if *r is Leaf {
                    i
                } else {
                    search_last(*r, ns, k)
                }
            }
        },
    }
}

/// A search for a missing key ends at a node whose key is next to it.
pub proof fn lemma_search_last<K: Ord, V>(s: Shape, ns: Seq<Node<K, V>>, k: K)
    requires
        key_order::<K>(),
        s.valid(ns),
        s is Branch,
        !s.to_map(ns).contains_key(k),
    ensures
        s.idxs().contains(search_last(s, ns, k)),
        neighbour(s.to_map(ns), k, ns[search_last(s, ns, k) as int].key),
    decreases s,
{
    if let Shape::Branch(l, i, r) = s {
        let ki = ns[i as int].key;
        let m = s.to_map(ns);
        let ml = l.to_map(ns);
        let mr = r.to_map(ns);
        lemma_cmp(k, ki);
        lemma_linked_idxs(s, ns);
        if lt(k, ki) {
            if *l is Leaf {
                assert forall|y: K| #[trigger] m.contains_key(y) && lt(y, ki) implies !lt(k, y) by {
                    lemma_cmp(y, ki);
                    if mr.contains_key(y) {
                        lemma_cmp(ki, y);
                    }
                }
            } else {
                lemma_search_last(*l, ns, k);
                let j = search_last(*l, ns, k);
                let x = ns[j as int].key;
                lemma_idx_key(*l, ns, j);
                lemma_linked_idxs(*l, ns);
                lemma_cmp(x, k);
                assert(lt(x, ki));
                if lt(x, k) {
                    assert forall|y: K| #[trigger] m.contains_key(y) && lt(x, y) implies !lt(y, k) by {
                        if !ml.contains_key(y) {
                            lemma_cmp(y, k);
                            if lt(y, k) {
                                lemma_lt_trans(y, k, ki);
                                lemma_cmp(y, ki);
                                if mr.contains_key(y) {
                                    lemma_cmp(ki, y);
                                }
                            }
                        }
                    }
                } else {
                    assert forall|y: K| #[trigger] m.contains_key(y) && lt(y, x) implies !lt(k, y) by {
                        if !ml.contains_key(y) {
                            lemma_lt_trans(y, x, ki);
                            lemma_cmp(y, ki);
                            if mr.contains_key(y) {
                                lemma_cmp(ki, y);
                            }
                        }
                    }
                }
            }
        } else {
            if *r is Leaf {
                assert forall|y: K| #[trigger] m.contains_key(y) && lt(ki, y) implies !lt(y, k) by {
                    lemma_cmp(ki, y);
                    if ml.contains_key(y) {
                        lemma_cmp(y, ki);
                    }
                }
            } else {
                lemma_search_last(*r, ns, k);
                let j = search_last(*r, ns, k);
                let x = ns[j as int].key;
                lemma_idx_key(*r, ns, j);
                lemma_linked_idxs(*r, ns);
                lemma_cmp(x, k);
                assert(lt(ki, x));
                if lt(k, x) {
                    assert forall|y: K| #[trigger] m.contains_key(y) && lt(y, x) implies !lt(k, y) by {
                        if !mr.contains_key(y) {
                            lemma_cmp(k, y);
                            if lt(k, y) {
                                lemma_lt_trans(ki, k, y);
                                lemma_cmp(ki, y);
                                if ml.contains_key(y) {
                                    lemma_cmp(y, ki);
                                }
                            }
                        }
                    }
                } else {
                    assert forall|y: K| #[trigger] m.contains_key(y) && lt(x, y) implies !lt(y, k) by {
                        if !mr.contains_key(y) {
                            lemma_lt_trans(ki, x, y);
                            lemma_cmp(ki, y);
                            if ml.contains_key(y) {
                                lemma_cmp(y, ki);
                            }
                        }
                    }
                }
            }
        }
    }
}

} // verus!
