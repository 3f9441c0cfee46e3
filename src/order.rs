//! The order on keys: what `K: Ord` promises, stated over `cmp_spec`.
use core::cmp::Ordering;
use vstd::laws_cmp::{obeys_cmp, obeys_cmp_ord, obeys_partial_cmp_spec_properties};
use vstd::laws_eq::{obeys_concrete_eq, obeys_eq_spec_properties};
use vstd::prelude::*;
use vstd::std_specs::cmp::{OrdSpec, PartialEqSpec, PartialOrdSpec};

verus! {

/// `K`'s `Ord` impl is a total order whose equality is equality of values.
pub open spec fn key_order<K: Ord>() -> bool {
    &&& obeys_cmp::<K>()
    &&& obeys_concrete_eq::<K>()
}

/// `a` sorts strictly before `b`.
pub open spec fn lt<K: Ord>(a: K, b: K) -> bool {
    a.cmp_spec(&b) == Ordering::Less
}

/// The three outcomes of a comparison, in terms of `lt` and `==`.
pub proof fn lemma_cmp<K: Ord>(a: K, b: K)
    requires
        key_order::<K>(),
    ensures
        K::obeys_cmp_spec(),
        K::obeys_eq_spec(),
        a.eq_spec(&b) <==> a == b,
        a.cmp_spec(&b) == Ordering::Equal <==> a == b,
        a.cmp_spec(&b) == Ordering::Greater <==> lt(b, a),
        lt(a, b) ==> !lt(b, a) && a != b,
        lt(a, b) || a == b || lt(b, a),
{
    reveal(obeys_cmp_ord);
    reveal(obeys_partial_cmp_spec_properties);
    reveal(obeys_eq_spec_properties);
    reveal(obeys_concrete_eq);
    reveal(vstd::laws_cmp::obeys_cmp_partial_ord);
    assert(a.partial_cmp_spec(&b) == Some(a.cmp_spec(&b)));
    assert(b.partial_cmp_spec(&a) == Some(b.cmp_spec(&a)));
}

/// `lt` is transitive.
pub proof fn lemma_lt_trans<K: Ord>(a: K, b: K, c: K)
    requires
        key_order::<K>(),
        lt(a, b),
        lt(b, c),
    ensures
        lt(a, c),
{
    reveal(obeys_cmp_ord);
    reveal(obeys_partial_cmp_spec_properties);
    assert(a.partial_cmp_spec(&b) == Some(a.cmp_spec(&b)));
    assert(b.partial_cmp_spec(&c) == Some(b.cmp_spec(&c)));
    assert(a.partial_cmp_spec(&c) == Some(a.cmp_spec(&c)));
}

/// `x` is a key of `m` next to `k`: the greatest key of `m` below `k`, or the least
/// key of `m` above it.
pub open spec fn neighbour<K: Ord, V>(m: Map<K, V>, k: K, x: K) -> bool {
    &&& m.contains_key(x)
    &&& {
        ||| lt(x, k) && forall|y: K| #[trigger] m.contains_key(y) && lt(x, y) ==> !lt(y, k)
        ||| lt(k, x) && forall|y: K| #[trigger] m.contains_key(y) && lt(y, x) ==> !lt(k, y)
    }
}

} // verus!
