//! What the terms for ordered entries come to.
use crate::cursor::{admits, leading, lemma_range, range, Bound};
use crate::entries::{del, get, lemma_rank, lemma_rank_is, present, put, rank, sorted};
use crate::order::{le, lt, total_order};
use crate::tree::{lemma_route, route};
use std::cmp::Ordering;
use vstd::prelude::*;
use vstd::std_specs::cmp::{PartialOrdIs, PartialOrdSpec};

verus! {

/// One key sorts before another if its `partial_cmp` says so.
pub proof fn law_lt<K: PartialOrd>(a: K, b: K)
    ensures
        lt(a, b) <==> a.partial_cmp_spec(&b) == Some(Ordering::Less),
        le(a, b) <==> b.partial_cmp_spec(&a) != Some(Ordering::Less),
{
    reveal(lt);
}

/// Entries are in order if each key sorts before the one behind it.
pub proof fn law_sorted<K: PartialOrd, V>(s: Seq<(K, V)>)
    requires
        total_order::<K>(),
    ensures
        sorted(s) <==> forall|i: int| 0 <= i < s.len() - 1 ==> lt(#[trigger] s[i].0, s[i + 1].0),
{
    if forall|i: int| 0 <= i < s.len() - 1 ==> lt(#[trigger] s[i].0, s[i + 1].0) {
        assert forall|i: int, j: int| #![trigger s[i], s[j]] 0 <= i < j < s.len() implies lt(
            s[i].0,
            s[j].0,
        ) by {
            lemma_chain(s, i, j);
        }
    }
}

proof fn lemma_chain<K: PartialOrd, V>(s: Seq<(K, V)>, i: int, j: int)
    requires
        total_order::<K>(),
        0 <= i < j < s.len(),
        forall|i: int| 0 <= i < s.len() - 1 ==> lt(#[trigger] s[i].0, s[i + 1].0),
    ensures
        lt(s[i].0, s[j].0),
    decreases j - i,
{
    if i + 1 < j {
        lemma_chain(s, i, j - 1);
        assert(lt(s[j - 1].0, s[j - 1 + 1].0));
    } else {
        assert(lt(s[i].0, s[i + 1].0));
    }
}

/// The rank of a key is the number of entries whose keys sort before it: these come first.
pub proof fn law_rank_of_key<K: PartialOrd, V>(s: Seq<(K, V)>, k: K)
    requires
        total_order::<K>(),
        sorted(s),
    ensures
        rank(s, k) <= s.len(),
        forall|i: int| 0 <= i < s.len() ==> (lt((#[trigger] s[i]).0, k) <==> i < rank(s, k)),
{
    lemma_rank(s, k);
    let r = rank(s, k) as int;
    assert forall|i: int| r <= i < s.len() implies !lt((#[trigger] s[i]).0, k) by {
        if i > r {
            assert(lt(s[r].0, s[i].0));
        }
    }
}

/// A lookup gives the value of the entry whose key sorts neither before nor behind the one asked
/// for, and nothing if there is no such entry.
pub proof fn law_lookup<K: PartialOrd, V>(s: Seq<(K, V)>, k: K)
    requires
        total_order::<K>(),
        sorted(s),
    ensures
        match get(s, k) {
            Some(v) => exists|i: int|
                0 <= i < s.len() && !lt(#[trigger] s[i].0, k) && !lt(k, s[i].0) && s[i].1 == v,
            None => forall|i: int| 0 <= i < s.len() ==> lt(#[trigger] s[i].0, k) || lt(k, s[i].0),
        },
        present(s, k) <==> get(s, k) is Some,
{
    lemma_rank(s, k);
    let r = rank(s, k) as int;
    if present(s, k) {
        assert(!lt(s[r].0, k) && !lt(k, s[r].0));
    } else {
        assert forall|i: int| 0 <= i < s.len() implies lt(#[trigger] s[i].0, k) || lt(k, s[i].0) by {
            if i > r {
                assert(lt(s[r].0, s[i].0));
            }
        }
    }
}

/// Putting a value under a key replaces the value of the entry with that key, whose key stays, or
/// sets a new entry between the smaller and the greater keys; every other entry stays.
pub proof fn law_put_entry<K: PartialOrd, V>(s: Seq<(K, V)>, k: K, v: V)
    requires
        total_order::<K>(),
        sorted(s),
    ensures
        exists|r: int|
            #![trigger s.take(r)]
            {
                &&& 0 <= r <= s.len()
                &&& forall|i: int| 0 <= i < r ==> lt(#[trigger] s[i].0, k)
                &&& if r < s.len() && !lt(k, s[r].0) {
                    &&& !lt(s[r].0, k)
                    &&& put(s, k, v) == s.take(r) + seq![(s[r].0, v)] + s.skip(r + 1)
                } else {
                    &&& forall|i: int| r <= i < s.len() ==> lt(k, #[trigger] s[i].0)
                    &&& put(s, k, v) == s.take(r) + seq![(k, v)] + s.skip(r)
                }
            },
{
    lemma_rank(s, k);
    let r = rank(s, k) as int;
    if present(s, k) {
        assert(put(s, k, v) =~= s.take(r) + seq![(s[r].0, v)] + s.skip(r + 1));
    } else {
        assert(put(s, k, v) =~= s.take(r) + seq![(k, v)] + s.skip(r));
        assert forall|i: int| r <= i < s.len() implies lt(k, #[trigger] s[i].0) by {
            if i > r {
                assert(lt(s[r].0, s[i].0));
            }
        }
    }
    assert(s.take(r) == s.take(r));
}

/// Deleting a key takes out the entry with that key, if there is one, and no other.
pub proof fn law_del_entry<K: PartialOrd, V>(s: Seq<(K, V)>, k: K)
    requires
        total_order::<K>(),
        sorted(s),
    ensures
        forall|i: int|
            0 <= i < s.len() && !lt(#[trigger] s[i].0, k) && !lt(k, s[i].0) ==> del(s, k) == s.take(i)
                + s.skip(i + 1),
        (forall|i: int| 0 <= i < s.len() ==> lt(#[trigger] s[i].0, k) || lt(k, s[i].0)) ==> del(s, k)
            == s,
{
    lemma_rank(s, k);
    assert forall|i: int| 0 <= i < s.len() && !lt(#[trigger] s[i].0, k) && !lt(k, s[i].0) implies del(
        s,
        k,
    ) == s.take(i) + s.skip(i + 1) by {
        assert forall|j: int| 0 <= j < i implies lt((#[trigger] s[j]).0, k) by {
            assert(lt(s[j].0, s[i].0));
        }
        lemma_rank_is(s, k, i);
        assert(s.remove(i) =~= s.take(i) + s.skip(i + 1));
    }
    if present(s, k) {
        assert(!lt(s[rank(s, k) as int].0, k));
    }
}

/// Which keys a walk reaches: up to the end and the end itself, up to the end without it, or all.
pub proof fn law_admits<K: PartialOrd>(end: K, k: K)
    ensures
        admits(Bound::Included(end), k) <==> !lt(end, k),
        admits(Bound::Excluded(end), k) <==> lt(k, end),
        admits(Bound::<K>::Unbounded, k),
{
}

/// A range is a run of the entries: all that do not sort before its start and that its end admits,
/// and no other.
pub proof fn law_range<K: PartialOrd, V>(s: Seq<(K, V)>, start: K, end: Bound<K>)
    requires
        total_order::<K>(),
        sorted(s),
    ensures
        exists|a: int, b: int|
            0 <= a <= b <= s.len() && range(s, start, end) == #[trigger] s.subrange(a, b) && forall|
                i: int,
            |
                0 <= i < s.len() ==> ((a <= i < b) <==> !lt(#[trigger] s[i].0, start) && match end {
                    Bound::Included(e) => !lt(e, s[i].0),
                    Bound::Excluded(e) => lt(s[i].0, e),
                    Bound::Unbounded => true,
                }),
{
    lemma_range(s, start, end);
    lemma_rank(s, start);
    let a = rank(s, start) as int;
    let rest = s.skip(a);
    crate::cursor::lemma_leading(rest, end);
    let b = a + leading(rest, end);
    assert(range(s, start, end) =~= s.subrange(a, b));
    assert forall|i: int| 0 <= i < s.len() implies ((a <= i < b) <==> !lt(#[trigger] s[i].0, start)
        && match end {
        Bound::Included(e) => !lt(e, s[i].0),
        Bound::Excluded(e) => lt(s[i].0, e),
        Bound::Unbounded => true,
    }) by {
        if i >= a {
            assert(rest[i - a] == s[i]);
            if i > a {
                assert(lt(s[a].0, s[i].0));
            }
        }
    }
}

/// The child that a key belongs to stands behind all separators that do not sort behind the key,
/// and before the others.
pub proof fn law_route<K: PartialOrd>(keys: Seq<K>, k: K)
    requires
        total_order::<K>(),
        forall|i: int, j: int|
            #![trigger keys[i], keys[j]]
            0 <= i < j < keys.len() ==> !lt(keys[j], keys[i]),
    ensures
        route(keys, k) <= keys.len(),
        forall|i: int| 0 <= i < route(keys, k) ==> !lt(k, #[trigger] keys[i]),
        forall|i: int| route(keys, k) <= i < keys.len() ==> lt(k, #[trigger] keys[i]),
{
    lemma_route(keys, k);
    let r = route(keys, k) as int;
    assert forall|i: int| r <= i < keys.len() implies lt(k, #[trigger] keys[i]) by {
        if i > r {
            assert(!lt(keys[i], keys[r]));
            assert(lt(k, keys[r]));
        }
    }
}

} // verus!
