//! In-order iteration over a splay tree, without splaying.
use crate::node::{Dir, Idx, Node};
use crate::order::lt;
use crate::shape::{lemma_entries, lemma_linked_idxs, lemma_size, Shape};
use crate::splay::Splay;
use vstd::prelude::*;

verus! {

/// Walks a tree's entries in ascending key order. The stack holds the nodes on the
/// way down to the next entry, each with a flag that is set once the node's own
/// entry has been handed out.
pub struct SplayIter<'a, K, V> {
    tree: &'a Splay<K, V>,
    path: Vec<(Idx, bool)>,
    shapes: Ghost<Seq<Shape>>,
}

/// The side on which the next node on the stack lies below a node.
pub open spec fn step_dir(e: (Idx, bool)) -> Dir {
    if e.1 {
        Dir::Right
    } else {
        Dir::Left
    }
}

/// A subtree's root and its left children down to its least node, none marked.
pub open spec fn left_spine(s: Shape) -> Seq<(Idx, bool)>
    decreases s,
{
    match s {
        Shape::Leaf => Seq::empty(),
        Shape::Branch(l, i, _) => seq![(i, false)] + left_spine(*l),
    }
}

/// The entries still to come for a stack of nodes: for each node from the top of the
/// stack down whose flag is clear, its own entry and then those of its right subtree.
pub open spec fn pending<K, V>(
    ns: Seq<Node<K, V>>,
    path: Seq<(Idx, bool)>,
    shapes: Seq<Shape>,
) -> Seq<(K, V)>
    decreases path.len(),
{
    if path.len() == 0 {
        Seq::empty()
    } else {
        let j = path.len() - 1;
        let rest = pending(ns, path.drop_last(), shapes.drop_last());
        if path[j].1 {
            rest
        } else {
            seq![(ns[path[j].0 as int].key, ns[path[j].0 as int].value)] + shapes[j].child(
                Dir::Right,
            ).entries(ns) + rest
        }
    }
}

impl<'a, K: Ord, V> View for SplayIter<'a, K, V> {
    type V = Seq<(K, V)>;

    /// The entries that the iterator has still to hand out, in order.
    closed spec fn view(&self) -> Seq<(K, V)> {
        pending(self.tree.nodes@, self.path@, self.shapes@)
    }
}

impl<'a, K: Ord, V> SplayIter<'a, K, V> {
    /// The tree is well formed, each node on the stack stands for its subtree, and the
    /// entry of the node on top is still to come.
    pub closed spec fn wf(&self) -> bool {
        &&& self.stack_ok()
        &&& self.path@.len() > 0 ==> !self.path@.last().1
    }

    /// The tree is well formed, each node on the stack stands for its subtree, and the
    /// stack is a path down from the root: each node's successor on the stack is its
    /// right child once the node's entry is handed out, its left child before.
    spec fn stack_ok(&self) -> bool {
        &&& self.tree.wf()
        &&& self.shapes@.len() == self.path@.len()
        &&& forall|j: int|
            0 <= j < self.path@.len() ==> {
                &&& (#[trigger] self.shapes@[j]).linked(self.tree.nodes@)
                &&& self.shapes@[j] is Branch
                &&& self.shapes@[j].idx() == self.path@[j].0
            }
        &&& self.path@.len() > 0 ==> self.shapes@[0] == self.tree.shape@
        &&& forall|j: int|
            1 <= j < self.path@.len() ==> #[trigger] self.shapes@[j] == self.shapes@[j - 1].child(
                step_dir(self.path@[j - 1]),
            )
    }

    /// The node at position `j` of the stack lies `j` levels below the root.
    proof fn lemma_level(&self, j: int)
        requires
            self.stack_ok(),
            0 <= j < self.path@.len(),
        ensures
            self.shapes@[j].height() + j <= self.tree.shape@.height(),
        decreases j,
    {
        if j > 0 {
            self.lemma_level(j - 1);
            assert(self.shapes@[j] == self.shapes@[j - 1].child(step_dir(self.path@[j - 1])));
        }
    }

    /// The stack is never longer than the tree is high.
    proof fn lemma_stack_height(&self)
        requires
            self.stack_ok(),
        ensures
            self.path@.len() <= self.tree.height(),
    {
        if self.path@.len() > 0 {
            self.lemma_level(self.path@.len() - 1);
        }
    }

    /// The stack of nodes, each with its flag.
    pub closed spec fn stack(&self) -> Seq<(Idx, bool)> {
        self.path@
    }

    /// The tree that is walked.
    pub closed spec fn tree(&self) -> Splay<K, V> {
        *self.tree
    }

    fn new(tree: &'a Splay<K, V>) -> (r: Self)
        requires
            tree.wf(),
        ensures
            r.wf(),
            r@ == tree.entries(),
            r.tree() == *tree,
            r.stack() == left_spine(tree.shape@),
    {
        let path = Vec::new();
        let mut t = SplayIter { tree, path, shapes: Ghost(Seq::empty()) };
        if let Some(root) = tree.root.to_option() {
            t.towards_min(root, Ghost(tree.shape@));
            assert(t@ =~= tree.entries());
            assert(t.path@ =~= left_spine(tree.shape@));
        } else {
            proof {
                lemma_linked_idxs(tree.shape@, tree.nodes@);
            }
        }
        t
    }

    /// Pushes the nodes from `idx` down to the least node of its subtree.
    fn towards_min(&mut self, idx: Idx, Ghost(s): Ghost<Shape>)
        requires
            old(self).stack_ok(),
            s.linked(old(self).tree.nodes@),
            s is Branch,
            s.idx() == idx,
            old(self).path@.len() == 0 ==> s == old(self).tree.shape@,
            old(self).path@.len() > 0 ==> s == old(self).shapes@.last().child(
                step_dir(old(self).path@.last()),
            ),
        ensures
            final(self).wf(),
            final(self).tree == old(self).tree,
            final(self)@ == s.entries(old(self).tree.nodes@) + old(self)@,
            final(self).path@ == old(self).path@ + left_spine(s),
    {
        let ghost ns = self.tree.nodes@;
        let ghost start = old(self)@;
        let ghost start_path = self.path@;
        let ghost start_len = self.path@.len();
        let ghost mut cur = s;
        let mut idx = Some(idx);
        proof {
            lemma_linked_idxs(s, ns);
            assert(start_path + left_spine(s) =~= self.path@ + left_spine(cur));
        }
        while idx.is_some()
            invariant
                self.tree == old(self).tree,
                ns == self.tree.nodes@,
                self.stack_ok(),
                self.path@.len() > start_len ==> !self.path@.last().1,
                cur.linked(ns),
                idx == cur.link().spec_option(),
                cur is Branch && self.path@.len() == 0 ==> cur == self.tree.shape@,
                cur is Branch && self.path@.len() > 0 ==> cur == self.shapes@.last().child(
                    step_dir(self.path@.last()),
                ),
                s.entries(ns) + start == cur.entries(ns) + self@,
                self.path@ + left_spine(cur) == start_path + left_spine(s),
                self.path@.len() >= start_len,
                cur is Leaf ==> self.path@.len() > start_len,
            decreases cur.size(),
        {
            proof {
                lemma_linked_idxs(cur, ns);
            }
            let i = idx.unwrap();
            let ghost before = self@;
            let ghost p0 = self.path@;
            let ghost sh0 = self.shapes@;
            self.path.push((i, false));
            self.shapes = Ghost(self.shapes@.push(cur));
            proof {
                assert(self.path@.drop_last() =~= p0);
                assert(self.shapes@.drop_last() =~= sh0);
                assert(self@ == seq![(ns[i as int].key, ns[i as int].value)] + cur.child(
                    Dir::Right,
                ).entries(ns) + before);
                assert(cur.entries(ns) == cur.child(Dir::Left).entries(ns) + seq![
                    (ns[i as int].key, ns[i as int].value),
                ] + cur.child(Dir::Right).entries(ns));
                assert(s.entries(ns) + start =~= cur.child(Dir::Left).entries(ns) + self@);
                assert(left_spine(cur) == seq![(i, false)] + left_spine(cur.child(Dir::Left)));
                assert(self.path@ + left_spine(cur.child(Dir::Left)) =~= p0 + left_spine(cur));
                assert forall|j: int| 1 <= j < self.path@.len() implies #[trigger] self.shapes@[j]
                    == self.shapes@[j - 1].child(step_dir(self.path@[j - 1])) by {
                    if j < self.path@.len() - 1 {
                        assert(self.shapes@[j] == sh0[j]);
                    }
                }
            }
            idx = self.tree.nodes[i].left.to_option();
            proof {
                cur = cur.child(Dir::Left);
            }
        }
        proof {
            assert(cur.entries(ns) =~= Seq::<(K, V)>::empty());
            assert(s.entries(ns) + start =~= self@);
            assert(self.path@ =~= self.path@ + left_spine(cur));
        }
    }

    /// Pops the nodes whose entries have all been handed out.
    fn upwards(&mut self)
        requires
            old(self).stack_ok(),
        ensures
            final(self).wf(),
            final(self).tree == old(self).tree,
            final(self)@ == old(self)@,
            final(self).path@ == old(self).path@.subrange(0, final(self).path@.len() as int),
            forall|j: int|
                final(self).path@.len() <= j < old(self).path@.len() ==> (
                #[trigger] old(self).path@[j]).1,
    {
        loop
            invariant
                self.tree == old(self).tree,
                self.stack_ok(),
                self@ == old(self)@,
                self.path@.len() <= old(self).path@.len(),
                self.path@ == old(self).path@.subrange(0, self.path@.len() as int),
                forall|j: int|
                    self.path@.len() <= j < old(self).path@.len() ==> (
                    #[trigger] old(self).path@[j]).1,
            ensures
                self.wf(),
                self.tree == old(self).tree,
                self@ == old(self)@,
                self.path@ == old(self).path@.subrange(0, self.path@.len() as int),
                forall|j: int|
                    self.path@.len() <= j < old(self).path@.len() ==> (
                    #[trigger] old(self).path@[j]).1,
            decreases self.path@.len(),
        {
            let n = self.path.len();
            if n == 0 {
                break;
            }
            if !self.path[n - 1].1 {
                break;
            }
            let ghost p0 = self.path@;
            let ghost sh0 = self.shapes@;
            self.path.pop();
            self.shapes = Ghost(self.shapes@.drop_last());
            proof {
                assert(self.path@ =~= p0.drop_last());
                assert(self.path@ =~= old(self).path@.subrange(0, self.path@.len() as int));
                assert(p0[n - 1] == old(self).path@[n - 1]);
                assert forall|j: int| 1 <= j < self.path@.len() implies #[trigger] self.shapes@[j]
                    == self.shapes@[j - 1].child(step_dir(self.path@[j - 1])) by {
                    assert(self.shapes@[j] == sh0[j]);
                    assert(self.path@[j - 1] == p0[j - 1]);
                }
            }
        }
    }

    /// Hands out the next entry in ascending key order, if any is left.
    pub fn next(&mut self) -> (r: Option<(&'a K, &'a V)>)
        requires
            old(self).wf(),
        ensures
            final(self).wf(),
            final(self).tree() == old(self).tree(),
            final(self).stack().len() <= final(self).tree().height(),
            old(self)@.len() == 0 ==> r is None && final(self)@ == old(self)@,
            old(self)@.len() > 0 ==> {
                &&& r matches Some((k, v))
                &&& *k == old(self)@[0].0
                &&& *v == old(self)@[0].1
                &&& final(self)@ == old(self)@.drop_first()
            },
    {
        proof {
            self.lemma_stack_height();
        }
        let n = self.path.len();
        if n == 0 {
            return None;
        }
        let ghost ns = self.tree.nodes@;
        let ghost p0 = self.path@;
        let ghost sh0 = self.shapes@;
        let ghost s = sh0[n - 1];
        let ghost rest = pending(ns, p0.drop_last(), sh0.drop_last());
        let (node_idx, _) = self.path[n - 1];
        let tree: &'a Splay<K, V> = self.tree;
        proof {
            lemma_linked_idxs(s, ns);
        }
        let node = &tree.nodes[node_idx];
        self.path.set(n - 1, (node_idx, true));
        proof {
            assert(self.path@.drop_last() =~= p0.drop_last());
            assert(self@ == rest);
            assert forall|j: int| 1 <= j < self.path@.len() implies #[trigger] self.shapes@[j]
                == self.shapes@[j - 1].child(step_dir(self.path@[j - 1])) by {
                assert(self.path@[j - 1] == p0[j - 1]);
            }
            assert(old(self)@ == seq![(node.key, node.value)] + s.child(Dir::Right).entries(ns)
                + rest);
        }
        match node.right.to_option() {
            Some(right) => {
                self.towards_min(right, Ghost(s.child(Dir::Right)));
            },
            None => {
                proof {
                    assert(s.child(Dir::Right).linked(ns));
                    lemma_linked_idxs(s.child(Dir::Right), ns);
                    assert(s.child(Dir::Right).entries(ns) =~= Seq::<(K, V)>::empty());
                }
                self.upwards();
            },
        }
        proof {
            assert(final(self)@ =~= old(self)@.drop_first());
            self.lemma_stack_height();
        }
        Some((&node.key, &node.value))
    }
}

impl<K: Ord, V> Splay<K, V> {
    /// An iterator over the entries in strictly ascending key order, each key once with
    /// its value. The tree is not splayed.
    pub fn iter(&self) -> (r: SplayIter<'_, K, V>)
        requires
            self.wf(),
        ensures
            r.wf(),
            r.tree() == *self,
            r@ == self.entries(),
            r@.len() == self@.dom().len(),
            r.stack().len() <= self.height(),
            forall|i: int, j: int| 0 <= i < j < r@.len() ==> lt(#[trigger] r@[i].0, #[trigger] r@[j].0),
            forall|i: int|
                0 <= i < r@.len() ==> self@.contains_key(#[trigger] r@[i].0) && self@[r@[i].0]
                    == r@[i].1,
            forall|k: K| #[trigger]
                self@.contains_key(k) ==> exists|i: int| 0 <= i < r@.len() && (#[trigger] r@[i]).0 == k,
    {
        proof {
            lemma_entries(self.shape@, self.nodes@);
            lemma_size(self.shape@, self.nodes@);
        }
        let r = SplayIter::new(self);
        proof {
            r.lemma_stack_height();
        }
        r
    }
}

} // verus!
