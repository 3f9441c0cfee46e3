//! What holds of sequences of calls, stated over the map that a tree stands for.
use crate::order::key_order;
use crate::shape::lemma_size;
use crate::splay::Splay;
use vstd::prelude::*;

verus! {

/// One call on a map: give a key a value (`set`), or look a key up (`get`).
pub enum Op<K, V> {
    Put(K, V),
    Get(K),
}

/// The results of the lookups among `ops`, when they are run in order on a plain map
/// that starts as `m`.
pub open spec fn map_results<K, V>(m: Map<K, V>, ops: Seq<Op<K, V>>) -> Seq<Option<V>>
    decreases ops.len(),
{
    if ops.len() == 0 {
        Seq::empty()
    } else {
        match ops[0] {
            Op::Put(k, v) => map_results(m.insert(k, v), ops.drop_first()),
            Op::Get(k) => seq![m.get(k)] + map_results(m, ops.drop_first()),
        }
    }
}

/// Runs `ops` in order on a new splay tree and collects what each lookup returns.
/// The results are exactly those of a plain map that is given the same calls.
pub fn replay<K: Ord + Copy, V: Copy>(ops: &Vec<Op<K, V>>) -> (r: Vec<Option<V>>)
    requires
        key_order::<K>(),
        ops@.len() < usize::MAX,
    ensures
        r@ == map_results(Map::empty(), ops@),
{
    let mut tree: Splay<K, V> = Splay::new();
    let mut results: Vec<Option<V>> = Vec::new();
    let mut i: usize = 0;
    proof {
        let all = map_results(Map::<K, V>::empty(), ops@);
        assert(ops@.subrange(0, ops@.len() as int) =~= ops@);
        assert(results@ + all =~= all);
    }
    while i < ops.len()
        invariant
            key_order::<K>(),
            ops@.len() < usize::MAX,
            i <= ops@.len(),
            tree.wf(),
            tree@.dom().len() <= i,
            results@ + map_results(tree@, ops@.subrange(i as int, ops@.len() as int))
                == map_results(Map::empty(), ops@),
        decreases ops@.len() - i,
    {
        let ghost m = tree@;
        let ghost rest = ops@.subrange(i as int, ops@.len() as int);
        let ghost before = results@;
        proof {
            lemma_size(tree.shape@, tree.nodes@);
            assert(rest.drop_first() =~= ops@.subrange(i + 1, ops@.len() as int));
        }
        match &ops[i] {
            Op::Put(k, v) => {
                tree.set(*k, *v);
                proof {
                    assert(tree@.dom() =~= m.dom().insert(*k));
                }
            },
            Op::Get(k) => {
                let found = tree.get(*k);
                let value = match found {
                    Some(v) => Some(*v),
                    None => None,
                };
                proof {
                    assert(value == m.get(*k));
                }
                results.push(value);
                proof {
                    assert(results@ + map_results(tree@, rest.drop_first()) =~= before
                        + map_results(m, rest));
                }
            },
        }
        i = i + 1;
    }
    proof {
        assert(ops@.subrange(i as int, ops@.len() as int) =~= Seq::<Op<K, V>>::empty());
        assert(results@ =~= results@ + Seq::<Option<V>>::empty());
    }
    results
}

/// Setting a key twice leaves one entry for it, with the second value.
pub proof fn lemma_set_twice<K, V>(m: Map<K, V>, k: K, v1: V, v2: V)
    ensures
        m.insert(k, v1).insert(k, v2) == m.insert(k, v2),
        m.insert(k, v1).insert(k, v2).get(k) == Some(v2),
{
    assert(m.insert(k, v1).insert(k, v2) =~= m.insert(k, v2));
}

} // verus!
