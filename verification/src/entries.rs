//! Sorted sequences of key/value pairs: what a tree holds.
use crate::order::{lt, total_order};
use vstd::prelude::*;

verus! {

/// The keys of `s` rise strictly.
pub open spec fn sorted<K: PartialOrd, V>(s: Seq<(K, V)>) -> bool {
    forall|i: int, j: int| #![trigger s[i], s[j]] 0 <= i < j < s.len() ==> lt(s[i].0, s[j].0)
}

/// How many of the leading keys of `s` sort before `k`.
pub open spec fn rank<K: PartialOrd, V>(s: Seq<(K, V)>, k: K) -> nat
    decreases s.len(),
{
    if s.len() == 0 || !lt(s[0].0, k) {
        0
    } else {
        1 + rank(s.drop_first(), k)
    }
}

/// The key `k` has an entry in `s`.
pub open spec fn present<K: PartialOrd, V>(s: Seq<(K, V)>, k: K) -> bool {
    let r = rank(s, k) as int;
    r < s.len() && !lt(k, s[r].0)
}

/// The value that `s` holds under `k`.
pub open spec fn get<K: PartialOrd, V>(s: Seq<(K, V)>, k: K) -> Option<V> {
    if present(s, k) {
        Some(s[rank(s, k) as int].1)
    } else {
        None
    }
}

/// `s` with `v` under `k`: the value of an entry that is there is replaced, its
/// key stays; a new entry goes where its key sorts.
pub open spec fn put<K: PartialOrd, V>(s: Seq<(K, V)>, k: K, v: V) -> Seq<(K, V)> {
    let r = rank(s, k) as int;
    if present(s, k) {
        s.update(r, (s[r].0, v))
    } else {
        s.insert(r, (k, v))
    }
}

/// `s` without the entry under `k`.
pub open spec fn del<K: PartialOrd, V>(s: Seq<(K, V)>, k: K) -> Seq<(K, V)> {
    if present(s, k) {
        s.remove(rank(s, k) as int)
    } else {
        s
    }
}

/// Every key of `s` sorts before `k`.
pub open spec fn all_below<K: PartialOrd, V>(s: Seq<(K, V)>, k: K) -> bool {
    forall|i: int| 0 <= i < s.len() ==> lt((#[trigger] s[i]).0, k)
}

/// The key `k` sorts before every key of `s`.
pub open spec fn all_above<K: PartialOrd, V>(s: Seq<(K, V)>, k: K) -> bool {
    forall|i: int| 0 <= i < s.len() ==> lt(k, (#[trigger] s[i]).0)
}

/// `rank` is the length of the run of keys before `k`.
pub proof fn lemma_rank<K: PartialOrd, V>(s: Seq<(K, V)>, k: K)
    ensures
        rank(s, k) <= s.len(),
        forall|i: int| 0 <= i < rank(s, k) ==> lt((#[trigger] s[i]).0, k),
        rank(s, k) < s.len() ==> !lt(s[rank(s, k) as int].0, k),
    decreases s.len(),
{
    if s.len() > 0 && lt(s[0].0, k) {
        let t = s.drop_first();
        lemma_rank(t, k);
        assert forall|i: int| 0 <= i < rank(s, k) implies lt((#[trigger] s[i]).0, k) by {
            if i > 0 {
                assert(s[i] == t[i - 1]);
            }
        }
        if rank(s, k) < s.len() {
            assert(s[rank(s, k) as int] == t[rank(t, k) as int]);
        }
    }
}

/// A run of keys before `k` that stops at a key not before `k` has length `rank`.
pub proof fn lemma_rank_is<K: PartialOrd, V>(s: Seq<(K, V)>, k: K, r: int)
    requires
        0 <= r <= s.len(),
        forall|i: int| 0 <= i < r ==> lt((#[trigger] s[i]).0, k),
        r < s.len() ==> !lt(s[r].0, k),
    ensures
        rank(s, k) == r,
{
    lemma_rank(s, k);
    if rank(s, k) < r {
        assert(lt(s[rank(s, k) as int].0, k));
    }
}

/// Looking `k` up, and changing what is under `k`, stay inside the part of a
/// sequence that `k` can lie in.
pub proof fn lemma_middle<K: PartialOrd, V>(
    a: Seq<(K, V)>,
    c: Seq<(K, V)>,
    b: Seq<(K, V)>,
    k: K,
    v: V,
)
    requires
        all_below(a, k),
        all_above(b, k),
        total_order::<K>(),
    ensures
        rank(a + c + b, k) == a.len() + rank(c, k),
        present(a + c + b, k) == present(c, k),
        get(a + c + b, k) == get(c, k),
        put(a + c + b, k, v) == a + put(c, k, v) + b,
        del(a + c + b, k) == a + del(c, k) + b,
{
    let s = a + c + b;
    let r: int = (a.len() + rank(c, k)) as int;
    lemma_rank(c, k);
    assert forall|i: int| 0 <= i < r implies lt((#[trigger] s[i]).0, k) by {
        if i < a.len() {
            assert(s[i] == a[i]);
        } else {
            assert(s[i] == c[i - a.len()]);
        }
    }
    if r < s.len() {
        if rank(c, k) < c.len() {
            assert(s[r] == c[rank(c, k) as int]);
        } else {
            assert(s[r] == b[0]);
            assert(lt(k, b[0].0));
        }
    }
    lemma_rank_is(s, k, r);
    assert(put(s, k, v) =~= a + put(c, k, v) + b);
    assert(del(s, k) =~= a + del(c, k) + b);
}

/// Putting and deleting keep a sequence sorted.
pub proof fn lemma_put_del_sorted<K: PartialOrd, V>(s: Seq<(K, V)>, k: K, v: V)
    requires
        sorted(s),
        total_order::<K>(),
    ensures
        sorted(put(s, k, v)),
        sorted(del(s, k)),
{
    lemma_rank(s, k);
    let r = rank(s, k) as int;
    let p = put(s, k, v);
    assert forall|i: int, j: int| #![trigger p[i], p[j]] 0 <= i < j < p.len() implies lt(p[i].0, p[j].0) by {
        if present(s, k) {
            assert(p[i].0 == s[i].0 && p[j].0 == s[j].0);
        } else {
            if j < r {
                assert(p[i] == s[i] && p[j] == s[j]);
            } else if j == r {
                assert(p[i] == s[i]);
            } else {
                assert(p[j] == s[j - 1]);
                if r < s.len() {
                    assert(lt(k, s[r].0));
                    if r < j - 1 {
                        assert(lt(s[r].0, s[j - 1].0));
                    }
                }
                if i < r {
                    assert(p[i] == s[i]);
                } else if i > r {
                    assert(p[i] == s[i - 1]);
                }
            }
        }
    }
}

} // verus!
