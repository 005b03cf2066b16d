//! The order on keys, as the contracts of this crate see it.
use vstd::laws_cmp::obeys_cmp;
use vstd::prelude::*;
use vstd::std_specs::cmp::{PartialEqSpec, PartialOrdIs};

verus! {

/// `a` sorts strictly before `b`.
#[verifier::opaque]
pub open spec fn lt<K: PartialOrd>(a: K, b: K) -> bool {
    a.is_lt(&b)
}

/// `a` does not sort after `b`.
pub open spec fn le<K: PartialOrd>(a: K, b: K) -> bool {
    !lt(b, a)
}

/// What every tree asks of its key type: `Ord` is a lawful total order, and a
/// cloned key is the key it was cloned from.
pub open spec fn lawful_key<K: Ord + Clone>() -> bool {
    &&& obeys_cmp::<K>()
    &&& forall|a: K, b: K| #[trigger] cloned::<K>(a, b) ==> a == b
}

/// The laws of `lt` that the proofs use.
pub open spec fn total_order<K: PartialOrd>() -> bool {
    &&& forall|a: K| !#[trigger] lt(a, a)
    &&& forall|a: K, b: K, c: K| #[trigger] lt(a, b) && #[trigger] lt(b, c) ==> lt(a, c)
    &&& forall|a: K, b: K, c: K| #![trigger lt(a, b), lt(c, b)] lt(a, b) && !lt(c, b) ==> lt(a, c)
    &&& forall|a: K, b: K, c: K| #![trigger lt(a, b), lt(a, c)] lt(a, b) && !lt(a, c) ==> lt(c, b)
}

/// A lawful `Ord` is a total order.
pub proof fn lemma_total_order<K: Ord>()
    requires
        obeys_cmp::<K>(),
    ensures
        total_order::<K>(),
{
    reveal(lt);
    reveal(vstd::laws_cmp::obeys_partial_cmp_spec_properties);
    reveal(vstd::laws_cmp::obeys_cmp_partial_ord);
    reveal(vstd::laws_cmp::obeys_cmp_ord);
    reveal(vstd::laws_eq::obeys_eq_spec_properties);
    assert forall|a: K, b: K, c: K| lt(a, b) && !lt(c, b) implies lt(a, c) by {
        if !lt(a, c) {
            if lt(c, a) {
                assert(lt(c, b));
            } else {
                assert(a.eq_spec(&c));
                if lt(b, c) {
                    assert(lt(a, c));
                } else {
                    assert(b.eq_spec(&c));
                    assert(c.eq_spec(&b));
                    assert(a.eq_spec(&b));
                }
            }
        }
    }
    assert forall|a: K, b: K, c: K| lt(a, b) && !lt(a, c) implies lt(c, b) by {
        if !lt(c, b) {
            assert(lt(a, c));
        }
    }
}

/// Reads `a < b` off the `PartialOrd` of a lawful key.
pub(crate) fn precedes<K: Ord>(a: &K, b: &K) -> (r: bool)
    requires
        obeys_cmp::<K>(),
    ensures
        r == lt(*a, *b),
{
    proof {
        reveal(lt);
        reveal(vstd::laws_cmp::obeys_cmp_partial_ord);
    }
    *a < *b
}

/// A clone of a lawful key is that key.
pub(crate) fn clone_key<K: Ord + Clone>(k: &K) -> (r: K)
    requires
        lawful_key::<K>(),
    ensures
        r == *k,
{
    let r = k.clone();
    assert(cloned::<K>(*k, r));
    r
}

} // verus!
