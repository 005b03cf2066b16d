//! How the in-memory trees make room for an entry and how they fill a node up again.
use crate::node::{even_left, even_right, split_point};
use crate::order::{le, lt, total_order};
use crate::tree::{
    child_hi, child_lo, cut, flat, hi_ok, join, lemma_cut, lemma_join, lemma_route, lemma_route_is,
    lemma_with_child, lemma_with_one, lemma_with_pair, lemma_with_two, lo_ok, route, sep_ok,
    seps_ok, with_one, with_pair, with_two, Tree,
};
use vstd::prelude::*;

verus! {

/// An inner node after room was made in its full child `ci`: a neighbour that can be had
/// and holds less than `cap` takes part of the child, the right one before the left one;
/// if there is none the child is split.
pub open spec fn room_made<K, V>(
    keys: Seq<K>,
    ch: Seq<Tree<K, V>>,
    ci: int,
    t: int,
    cap: int,
    right_free: bool,
    left_free: bool,
) -> Tree<K, V> {
    if right_free && ci + 1 < ch.len() && ch[ci + 1].count() < cap {
        with_pair(
            keys,
            ch,
            ci,
            cut(join(ch[ci], keys[ci], ch[ci + 1]), even_right(ch[ci], ch[ci + 1])),
        )
    } else if left_free && ci > 0 && ch[ci - 1].count() < cap {
        with_pair(
            keys,
            ch,
            ci - 1,
            cut(join(ch[ci - 1], keys[ci - 1], ch[ci]), even_left(ch[ci - 1], ch[ci])),
        )
    } else {
        with_two(keys, ch, ci, cut(ch[ci], split_point(ch[ci], t)))
    }
}

/// An inner node after its child `ci` was filled up: a right neighbour with at least `t`
/// lends its first, a left neighbour with at least `left_min` its last; if neither does
/// the child is joined with a neighbour, the right one where there is one.
pub open spec fn rebalanced<K, V>(
    keys: Seq<K>,
    ch: Seq<Tree<K, V>>,
    ci: int,
    t: int,
    left_min: int,
) -> Tree<K, V> {
    if ci + 1 < ch.len() && ch[ci + 1].count() >= t {
        with_pair(keys, ch, ci, cut(join(ch[ci], keys[ci], ch[ci + 1]), ch[ci].count() as int + 1))
    } else if ci > 0 && ch[ci - 1].count() >= left_min {
        with_pair(
            keys,
            ch,
            ci - 1,
            cut(join(ch[ci - 1], keys[ci - 1], ch[ci]), ch[ci - 1].count() - 1),
        )
    } else if ci + 1 < ch.len() {
        with_one(keys, ch, ci, join(ch[ci], keys[ci], ch[ci + 1]))
    } else {
        with_one(keys, ch, ci - 1, join(ch[ci - 1], keys[ci - 1], ch[ci]))
    }
}

/// A count of at least `a` and, where `b` bounds it, at most `b`.
pub open spec fn fits_size(c: nat, a: int, b: Option<int>) -> bool {
    &&& a <= c
    &&& b matches Some(b) ==> c <= b
}

/// Every node below the top of the tree has a count between `a` and `b`.
pub open spec fn sized<K, V>(m: Tree<K, V>, h: nat, a: int, b: Option<int>) -> bool
    decreases h,
{
    h > 0 ==> (m matches Tree::Internal(_, ch) ==> forall|i: int|
        0 <= i < ch.len() ==> fits_size((#[trigger] ch[i]).count(), a, b) && sized(
            ch[i],
            (h - 1) as nat,
            a,
            b,
        ))
}

pub proof fn lemma_sized_join<K, V>(
    l: Tree<K, V>,
    s: K,
    r: Tree<K, V>,
    h: nat,
    a: int,
    b: Option<int>,
)
    requires
        sized(l, h, a, b),
        sized(r, h, a, b),
        l is Leaf <==> r is Leaf,
    ensures
        sized(join(l, s, r), h, a, b),
{
}

pub proof fn lemma_sized_cut<K, V>(m: Tree<K, V>, p: int, h: nat, a: int, b: Option<int>)
    requires
        sized(m, h, a, b),
        0 <= p < m.count(),
        m matches Tree::Internal(keys, ch) ==> ch.len() == keys.len() + 1,
    ensures
        sized(cut(m, p).0, h, a, b),
        sized(cut(m, p).2, h, a, b),
{
}

/// Which way the separator between two neighbours moves when entries move the other way.
proof fn lemma_sep_moves<K: PartialOrd, V>(
    l: Tree<K, V>,
    s: K,
    r: Tree<K, V>,
    p: int,
    h: nat,
    lo: Option<K>,
    hi: Option<K>,
)
    requires
        l.wf(h, lo, Some(s)),
        r.wf(h, Some(s), hi),
        0 <= p < join(l, s, r).count(),
        total_order::<K>(),
    ensures
        p > l.count() ==> le(s, cut(join(l, s, r), p).1),
        p < l.count() ==> le(cut(join(l, s, r), p).1, s),
{
    match (l, r) {
        (Tree::Leaf(a), Tree::Leaf(b)) => {
            if p > a.len() {
                assert((a + b)[p] == b[p - a.len()]);
                assert(lo_ok(Some(s), b[p - a.len()].0));
            } else if p < a.len() {
                assert((a + b)[p] == a[p]);
                assert(hi_ok(a[p].0, Some(s)));
            }
        },
        (Tree::Internal(k1, c1), Tree::Internal(k2, c2)) => {
            let k = k1.push(s) + k2;
            if p > k1.len() {
                assert(k[p] == k2[p - k1.len() - 1]);
                assert(sep_ok(Some(s), k2[p - k1.len() - 1], hi));
            } else if p < k1.len() {
                assert(k[p] == k1[p]);
                assert(sep_ok(lo, k1[p], Some(s)));
            }
        },
        _ => {},
    }
}

/// Moving entries between two neighbours keeps the node and what it holds.
pub proof fn lemma_repartition<K: PartialOrd, V>(
    keys: Seq<K>,
    ch: Seq<Tree<K, V>>,
    h: nat,
    lo: Option<K>,
    hi: Option<K>,
    i: int,
    p: int,
)
    requires
        total_order::<K>(),
        Tree::Internal(keys, ch).wf(h, lo, hi),
        0 <= i < keys.len(),
        0 <= p < join(ch[i], keys[i], ch[i + 1]).count(),
    ensures
        ({
            let m = join(ch[i], keys[i], ch[i + 1]);
            let x = cut(m, p);
            let n = with_pair(keys, ch, i, x);
            &&& n.wf(h, lo, hi)
            &&& n.contents() == Tree::Internal(keys, ch).contents()
            &&& n.count() == keys.len()
            &&& x.0.count() == p
            &&& x.2.count() == ch[i].count() + ch[i + 1].count() - p
            &&& m.count() >= ch[i].count() + ch[i + 1].count()
            &&& p > ch[i].count() ==> le(keys[i], x.1)
            &&& p < ch[i].count() ==> le(x.1, keys[i])
            &&& forall|a: int, b: Option<int>|
                sized(Tree::Internal(keys, ch), h, a, b) && fits_size(x.0.count(), a, b) && fits_size(
                    x.2.count(),
                    a,
                    b,
                ) ==> #[trigger] sized(n, h, a, b)
        }),
{
    let l = ch[i];
    let r = ch[i + 1];
    let s = keys[i];
    let m = join(l, s, r);
    let x = cut(m, p);
    let h1 = (h - 1) as nat;
    let lo1 = child_lo(keys, i, lo);
    let hi1 = child_hi(keys, i + 1, hi);
    assert(l.wf(h1, lo1, child_hi(keys, i, hi)));
    assert(r.wf(h1, child_lo(keys, i + 1, lo), hi1));
    lemma_pair_bounds(keys, ch, h, lo, hi, i);
    lemma_join(l, s, r, h1, lo1, hi1);
    lemma_cut(m, p, h1, lo1, hi1);
    lemma_sep_moves(l, s, r, p, h1, lo1, hi1);
    lemma_with_pair(keys, ch, h, lo, hi, i, x);
    let n = with_pair(keys, ch, i, x);
    let c2 = ch.update(i, x.0).update(i + 1, x.2);
    assert forall|a: int, b: Option<int>|
        sized(Tree::Internal(keys, ch), h, a, b) && fits_size(x.0.count(), a, b) && fits_size(
            x.2.count(),
            a,
            b,
        ) implies #[trigger] sized(n, h, a, b) by {
        assert(sized(ch[i], h1, a, b) && sized(ch[i + 1], h1, a, b));
        lemma_sized_join(l, s, r, h1, a, b);
        lemma_sized_cut(m, p, h1, a, b);
        assert forall|j: int| 0 <= j < c2.len() implies fits_size((#[trigger] c2[j]).count(), a, b) && sized(
            c2[j],
            h1,
            a,
            b,
        ) by {
            if j != i && j != i + 1 {
                assert(c2[j] == ch[j]);
            }
        }
    }
}

/// The separator between two neighbours lies between their outer bounds.
pub proof fn lemma_pair_bounds<K: PartialOrd, V>(
    keys: Seq<K>,
    ch: Seq<Tree<K, V>>,
    h: nat,
    lo: Option<K>,
    hi: Option<K>,
    i: int,
)
    requires
        Tree::Internal(keys, ch).wf(h, lo, hi),
        0 <= i < keys.len(),
    ensures
        sep_ok(child_lo(keys, i, lo), keys[i], child_hi(keys, i + 1, hi)),
        child_hi(keys, i, hi) == Some(keys[i]),
        child_lo(keys, i + 1, lo) == Some(keys[i]),
{
    assert(sep_ok(lo, keys[i], hi));
    if i > 0 {
        assert(le(keys[i - 1], keys[i]));
    }
    if i + 1 < keys.len() {
        assert(le(keys[i], keys[i + 1]));
    }
}

/// Splitting a child keeps the node and what it holds.
pub proof fn lemma_split<K: PartialOrd, V>(
    keys: Seq<K>,
    ch: Seq<Tree<K, V>>,
    h: nat,
    lo: Option<K>,
    hi: Option<K>,
    ci: int,
    p: int,
)
    requires
        total_order::<K>(),
        Tree::Internal(keys, ch).wf(h, lo, hi),
        0 <= ci < ch.len(),
        0 <= p < ch[ci].count(),
    ensures
        ({
            let x = cut(ch[ci], p);
            let n = with_two(keys, ch, ci, x);
            &&& n.wf(h, lo, hi)
            &&& n.contents() == Tree::Internal(keys, ch).contents()
            &&& n.count() == keys.len() + 1
            &&& x.0.count() == p
            &&& x.2.count() == ch[ci].count() - p - (if h == 1 { 0int } else { 1int })
            &&& forall|a: int, b: Option<int>|
                sized(Tree::Internal(keys, ch), h, a, b) && fits_size(x.0.count(), a, b) && fits_size(
                    x.2.count(),
                    a,
                    b,
                ) ==> #[trigger] sized(n, h, a, b)
        }),
{
    let x = cut(ch[ci], p);
    let h1 = (h - 1) as nat;
    assert(ch[ci].wf(h1, child_lo(keys, ci, lo), child_hi(keys, ci, hi)));
    lemma_cut(ch[ci], p, h1, child_lo(keys, ci, lo), child_hi(keys, ci, hi));
    lemma_with_two(keys, ch, h, lo, hi, ci, x);
    let n = with_two(keys, ch, ci, x);
    let c2 = ch.update(ci, x.0).insert(ci + 1, x.2);
    assert forall|a: int, b: Option<int>|
        sized(Tree::Internal(keys, ch), h, a, b) && fits_size(x.0.count(), a, b) && fits_size(
            x.2.count(),
            a,
            b,
        ) implies #[trigger] sized(n, h, a, b) by {
        assert(sized(ch[ci], h1, a, b));
        lemma_sized_cut(ch[ci], p, h1, a, b);
        assert forall|j: int| 0 <= j < c2.len() implies fits_size((#[trigger] c2[j]).count(), a, b) && sized(
            c2[j],
            h1,
            a,
            b,
        ) by {
            if j < ci {
                assert(c2[j] == ch[j]);
            } else if j > ci + 1 {
                assert(c2[j] == ch[j - 1]);
            }
        }
    }
}

/// Joining two neighbours keeps the node and what it holds.
pub proof fn lemma_merge<K: PartialOrd, V>(
    keys: Seq<K>,
    ch: Seq<Tree<K, V>>,
    h: nat,
    lo: Option<K>,
    hi: Option<K>,
    i: int,
)
    requires
        total_order::<K>(),
        Tree::Internal(keys, ch).wf(h, lo, hi),
        0 <= i < keys.len(),
    ensures
        ({
            let m = join(ch[i], keys[i], ch[i + 1]);
            let n = with_one(keys, ch, i, m);
            &&& n.wf(h, lo, hi)
            &&& n.contents() == Tree::Internal(keys, ch).contents()
            &&& n.count() == keys.len() - 1
            &&& m.count() == ch[i].count() + ch[i + 1].count() + (if h == 1 { 0int } else { 1int })
            &&& forall|a: int, b: Option<int>|
                sized(Tree::Internal(keys, ch), h, a, b) && fits_size(m.count(), a, b)
                    ==> #[trigger] sized(n, h, a, b)
        }),
{
    let m = join(ch[i], keys[i], ch[i + 1]);
    let h1 = (h - 1) as nat;
    let lo1 = child_lo(keys, i, lo);
    let hi1 = child_hi(keys, i + 1, hi);
    assert(ch[i].wf(h1, lo1, child_hi(keys, i, hi)));
    assert(ch[i + 1].wf(h1, child_lo(keys, i + 1, lo), hi1));
    lemma_pair_bounds(keys, ch, h, lo, hi, i);
    lemma_join(ch[i], keys[i], ch[i + 1], h1, lo1, hi1);
    lemma_with_one(keys, ch, h, lo, hi, i, m);
    let n = with_one(keys, ch, i, m);
    let c2 = ch.remove(i + 1).update(i, m);
    assert forall|a: int, b: Option<int>|
        sized(Tree::Internal(keys, ch), h, a, b) && fits_size(m.count(), a, b) implies #[trigger] sized(n, h, a, b) by {
        assert(sized(ch[i], h1, a, b) && sized(ch[i + 1], h1, a, b));
        lemma_sized_join(ch[i], keys[i], ch[i + 1], h1, a, b);
        assert forall|j: int| 0 <= j < c2.len() implies fits_size((#[trigger] c2[j]).count(), a, b) && sized(
            c2[j],
            h1,
            a,
            b,
        ) by {
            if j < i {
                assert(c2[j] == ch[j]);
            } else if j > i {
                assert(c2[j] == ch[j + 1]);
            }
        }
    }
}

/// After two neighbours were evened out a key of either belongs to one of them.
pub proof fn lemma_route_pair<K: PartialOrd>(keys: Seq<K>, i: int, s: K, k: K)
    requires
        total_order::<K>(),
        seps_ok(keys, None, None),
        0 <= i < keys.len(),
        i == route(keys, k) || i + 1 == route(keys, k),
    ensures
        route(keys.update(i, s), k) == if lt(k, s) {
            i
        } else {
            i + 1
        },
{
    lemma_route(keys, k);
    if i + 1 < keys.len() {
        assert(le(keys[i], keys[i + 1]));
    }
    let k2 = keys.update(i, s);
    let r = if lt(k, s) {
        i
    } else {
        i + 1
    };
    assert forall|j: int| 0 <= j < r implies le(#[trigger] k2[j], k) by {
        if j < i {
            assert(k2[j] == keys[j]);
        }
    }
    lemma_route_is(k2, k, r);
}

/// After a child was split a key of it belongs to one of the parts.
pub proof fn lemma_route_two<K: PartialOrd>(keys: Seq<K>, s: K, k: K)
    ensures
        route(keys.insert(route(keys, k) as int, s), k) == if lt(k, s) {
            route(keys, k)
        } else {
            route(keys, k) + 1
        },
{
    lemma_route(keys, k);
    let ci = route(keys, k) as int;
    let k2 = keys.insert(ci, s);
    let r = if lt(k, s) {
        ci
    } else {
        ci + 1
    };
    assert forall|j: int| 0 <= j < r implies le(#[trigger] k2[j], k) by {
        if j < ci {
            assert(k2[j] == keys[j]);
        }
    }
    if ci + 1 < k2.len() {
        assert(k2[ci + 1] == keys[ci]);
    }
    lemma_route_is(k2, k, r);
}

/// After two neighbours were joined a key of either belongs to the whole.
pub proof fn lemma_route_one<K: PartialOrd>(keys: Seq<K>, i: int, k: K)
    requires
        total_order::<K>(),
        seps_ok(keys, None, None),
        0 <= i < keys.len(),
        i == route(keys, k) || i + 1 == route(keys, k),
    ensures
        route(keys.remove(i), k) == i,
{
    lemma_route(keys, k);
    if i + 1 < keys.len() {
        assert(le(keys[i], keys[i + 1]));
    }
    let k2 = keys.remove(i);
    assert forall|j: int| 0 <= j < i implies le(#[trigger] k2[j], k) by {
        assert(k2[j] == keys[j]);
    }
    if i < k2.len() {
        assert(k2[i] == keys[i + 1]);
    }
    lemma_route_is(k2, k, i);
}

/// Making room keeps the node and what it holds, leaves every child it changed at least
/// half full, and leaves no full child on the way of `k` if only neighbours with two
/// places left are used.
pub proof fn lemma_room<K: PartialOrd, V>(
    keys: Seq<K>,
    ch: Seq<Tree<K, V>>,
    h: nat,
    lo: Option<K>,
    hi: Option<K>,
    t: int,
    cap: int,
    right_free: bool,
    left_free: bool,
    k: K,
)
    requires
        total_order::<K>(),
        Tree::Internal(keys, ch).wf(h, lo, hi),
        t >= 2,
        cap <= 2 * t - 1,
        route(keys, k) < ch.len(),
        ch[route(keys, k) as int].count() == 2 * t - 1,
    ensures
        ({
            let ci = route(keys, k) as int;
            let n = room_made(keys, ch, ci, t, cap, right_free, left_free);
            &&& n.wf(h, lo, hi)
            &&& n.contents() == Tree::Internal(keys, ch).contents()
            &&& keys.len() <= n.count() <= keys.len() + 1
            &&& n matches Tree::Internal(k2, c2)
            &&& cap <= 2 * t - 2 ==> c2[route(k2, k) as int].count() <= 2 * t - 2
            &&& c2[route(k2, k) as int].count() >= t - 1
            &&& forall|a: int, b: Option<int>|
                sized(Tree::Internal(keys, ch), h, a, b) && a <= t - 1 && (b is None || b == Some(
                    2 * t - 1,
                )) ==> #[trigger] sized(n, h, a, b)
        }),
{
    let ci = route(keys, k) as int;
    lemma_route(keys, k);
    lemma_wf_seps(keys, ch, h, lo, hi);
    if right_free && ci + 1 < ch.len() && ch[ci + 1].count() < cap {
        let p = even_right(ch[ci], ch[ci + 1]);
        lemma_kinds(keys, ch, h, lo, hi, ci);
        lemma_repartition(keys, ch, h, lo, hi, ci, p);
        let x = cut(join(ch[ci], keys[ci], ch[ci + 1]), p);
        lemma_route_pair(keys, ci, x.1, k);
    } else if left_free && ci > 0 && ch[ci - 1].count() < cap {
        let p = even_left(ch[ci - 1], ch[ci]);
        lemma_kinds(keys, ch, h, lo, hi, ci - 1);
        lemma_repartition(keys, ch, h, lo, hi, ci - 1, p);
        let x = cut(join(ch[ci - 1], keys[ci - 1], ch[ci]), p);
        lemma_route_pair(keys, ci - 1, x.1, k);
    } else {
        let p = split_point(ch[ci], t);
        assert(ch[ci].wf((h - 1) as nat, child_lo(keys, ci, lo), child_hi(keys, ci, hi)));
        lemma_split(keys, ch, h, lo, hi, ci, p);
        let x = cut(ch[ci], p);
        lemma_route_two(keys, x.1, k);
    }
}

/// Neighbours are of one kind, so joining them counts up.
proof fn lemma_kinds<K: PartialOrd, V>(
    keys: Seq<K>,
    ch: Seq<Tree<K, V>>,
    h: nat,
    lo: Option<K>,
    hi: Option<K>,
    i: int,
)
    requires
        Tree::Internal(keys, ch).wf(h, lo, hi),
        0 <= i < keys.len(),
    ensures
        ch[i] is Leaf <==> ch[i + 1] is Leaf,
        join(ch[i], keys[i], ch[i + 1]).count() == ch[i].count() + ch[i + 1].count() + (if h == 1 {
            0int
        } else {
            1int
        }),
{
    let h1 = (h - 1) as nat;
    assert(ch[i].wf(h1, child_lo(keys, i, lo), child_hi(keys, i, hi)));
    assert(ch[i + 1].wf(h1, child_lo(keys, i + 1, lo), child_hi(keys, i + 1, hi)));
}

pub proof fn lemma_wf_seps<K: PartialOrd, V>(
    keys: Seq<K>,
    ch: Seq<Tree<K, V>>,
    h: nat,
    lo: Option<K>,
    hi: Option<K>,
)
    requires
        Tree::Internal(keys, ch).wf(h, lo, hi),
    ensures
        seps_ok(keys, None, None),
{
}

/// Filling a child up keeps the node and what it holds; the child on the way of `k` has
/// gained one, or has taken in a neighbour.
pub proof fn lemma_rebalanced<K: PartialOrd, V>(
    keys: Seq<K>,
    ch: Seq<Tree<K, V>>,
    h: nat,
    lo: Option<K>,
    hi: Option<K>,
    t: int,
    left_min: int,
    k: K,
)
    requires
        total_order::<K>(),
        Tree::Internal(keys, ch).wf(h, lo, hi),
        t >= 2,
        1 <= left_min <= t,
        ch.len() >= 2,
        route(keys, k) < ch.len(),
        ch[route(keys, k) as int].count() <= t - 1,
    ensures
        ({
            let ci = route(keys, k) as int;
            let j = if ci + 1 < ch.len() {
                ci + 1
            } else {
                ci - 1
            };
            let n = rebalanced(keys, ch, ci, t, left_min);
            &&& n.wf(h, lo, hi)
            &&& n.contents() == Tree::Internal(keys, ch).contents()
            &&& n matches Tree::Internal(k2, c2)
            &&& {
                ||| {
                    &&& k2.len() == keys.len()
                    &&& route(k2, k) == ci
                    &&& c2[ci].count() == ch[ci].count() + 1
                }
                ||| {
                    &&& k2.len() == keys.len() - 1
                    &&& ch[j].count() < t
                    &&& c2[route(k2, k) as int].count() == ch[ci].count() + ch[j].count() + (if h == 1 {
                        0int
                    } else {
                        1int
                    })
                    &&& route(k2, k) == if j < ci {
                        j
                    } else {
                        ci
                    }
                }
            }
            &&& forall|a: int, b: Option<int>|
                sized(Tree::Internal(keys, ch), h, a, b) && a <= left_min - 1 && (b is None || b == Some(
                    2 * t - 1,
                )) ==> #[trigger] sized(n, h, a, b)
        }),
{
    let ci = route(keys, k) as int;
    lemma_route(keys, k);
    lemma_wf_seps(keys, ch, h, lo, hi);
    if ci + 1 < ch.len() && ch[ci + 1].count() >= t {
        let p = ch[ci].count() as int + 1;
        lemma_kinds(keys, ch, h, lo, hi, ci);
        lemma_repartition(keys, ch, h, lo, hi, ci, p);
        let x = cut(join(ch[ci], keys[ci], ch[ci + 1]), p);
        lemma_route_pair(keys, ci, x.1, k);
        assert(lt(k, keys[ci]));
        lemma_sized_all(keys, ch, h);
    } else if ci > 0 && ch[ci - 1].count() >= left_min {
        let p = ch[ci - 1].count() - 1;
        lemma_kinds(keys, ch, h, lo, hi, ci - 1);
        lemma_repartition(keys, ch, h, lo, hi, ci - 1, p);
        let x = cut(join(ch[ci - 1], keys[ci - 1], ch[ci]), p);
        lemma_route_pair(keys, ci - 1, x.1, k);
        assert(le(keys[ci - 1], k));
        lemma_sized_all(keys, ch, h);
    } else if ci + 1 < ch.len() {
        lemma_kinds(keys, ch, h, lo, hi, ci);
        lemma_merge(keys, ch, h, lo, hi, ci);
        lemma_route_one(keys, ci, k);
        lemma_sized_all(keys, ch, h);
    } else {
        lemma_kinds(keys, ch, h, lo, hi, ci - 1);
        lemma_merge(keys, ch, h, lo, hi, ci - 1);
        lemma_route_one(keys, ci - 1, k);
        lemma_sized_all(keys, ch, h);
    }
}

proof fn lemma_sized_all<K, V>(keys: Seq<K>, ch: Seq<Tree<K, V>>, h: nat)
    ensures
        forall|a: int, b: Option<int>, i: int|
            h > 0 && #[trigger] sized(Tree::Internal(keys, ch), h, a, b) && 0 <= i < ch.len() ==> fits_size(
                (#[trigger] ch[i]).count(),
                a,
                b,
            ),
{
    assert forall|a: int, b: Option<int>, i: int|
        h > 0 && #[trigger] sized(Tree::Internal(keys, ch), h, a, b) && 0 <= i < ch.len() implies fits_size(
        (#[trigger] ch[i]).count(),
        a,
        b,
    ) by {
        let m = Tree::Internal(keys, ch);
        assert(m->Internal_1[i] == ch[i]);
    }
}

/// The children of a sized node are sized.
pub proof fn lemma_sized_child<K, V>(
    keys: Seq<K>,
    ch: Seq<Tree<K, V>>,
    h: nat,
    a: int,
    b: Option<int>,
    i: int,
)
    requires
        h > 0,
        sized(Tree::Internal(keys, ch), h, a, b),
        0 <= i < ch.len(),
    ensures
        fits_size(ch[i].count(), a, b),
        sized(ch[i], (h - 1) as nat, a, b),
{
    let m = Tree::Internal(keys, ch);
    assert(m->Internal_1[i] == ch[i]);
}

/// A node with a changed child is well-formed and sized if the child is.
pub proof fn lemma_child_changed<K: PartialOrd, V>(
    keys: Seq<K>,
    ch: Seq<Tree<K, V>>,
    h: nat,
    lo: Option<K>,
    hi: Option<K>,
    ci: int,
    c: Tree<K, V>,
    a: int,
    b: Option<int>,
)
    requires
        Tree::Internal(keys, ch).wf(h, lo, hi),
        0 <= ci < ch.len(),
        c.wf((h - 1) as nat, child_lo(keys, ci, lo), child_hi(keys, ci, hi)),
        sized(Tree::Internal(keys, ch), h, a, b),
        fits_size(c.count(), a, b),
        sized(c, (h - 1) as nat, a, b),
    ensures
        Tree::Internal(keys, ch.update(ci, c)).wf(h, lo, hi),
        sized(Tree::Internal(keys, ch.update(ci, c)), h, a, b),
        flat(ch.update(ci, c)) == flat(ch.take(ci)) + c.contents() + flat(ch.skip(ci + 1)),
{
    lemma_with_child(keys, ch, h, lo, hi, ci, c);
    let c2 = ch.update(ci, c);
    assert forall|j: int| 0 <= j < c2.len() implies fits_size((#[trigger] c2[j]).count(), a, b) && sized(
        c2[j],
        (h - 1) as nat,
        a,
        b,
    ) by {
        lemma_sized_child(keys, ch, h, a, b, j);
    }
}

} // verus!
