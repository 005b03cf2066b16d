//! B+ trees as mathematical values.
//!
//! A leaf is a sequence of entries; an inner node is a sequence of separator keys and
//! one more subtree than there are keys. The operations that reshape a tree are all
//! made of two: `join` glues two neighbours together, `cut` takes a node apart.
use crate::entries::{
    all_above, all_below, del, get, lemma_middle, lemma_put_del_sorted, lemma_rank, present, put,
    rank, sorted,
};
use crate::order::{le, lt, total_order};
use vstd::prelude::*;

verus! {

pub enum Tree<K, V> {
    Leaf(Seq<(K, V)>),
    Internal(Seq<K>, Seq<Tree<K, V>>),
}

/// The entries below a row of subtrees, from left to right.
pub open spec fn flat<K, V>(ch: Seq<Tree<K, V>>) -> Seq<(K, V)>
    decreases ch,
{
    if ch.len() == 0 {
        Seq::empty()
    } else {
        flat(ch.drop_last()) + ch.last().contents()
    }
}

/// The lower bound of the keys below child `i`.
pub open spec fn child_lo<K>(keys: Seq<K>, i: int, lo: Option<K>) -> Option<K> {
    if i == 0 {
        lo
    } else {
        Some(keys[i - 1])
    }
}

/// The upper bound of the keys below child `i`.
pub open spec fn child_hi<K>(keys: Seq<K>, i: int, hi: Option<K>) -> Option<K> {
    if i == keys.len() {
        hi
    } else {
        Some(keys[i])
    }
}

/// `k` is not below `lo`.
pub open spec fn lo_ok<K: PartialOrd>(lo: Option<K>, k: K) -> bool {
    lo matches Some(b) ==> le(b, k)
}

/// `k` is below `hi`.
pub open spec fn hi_ok<K: PartialOrd>(k: K, hi: Option<K>) -> bool {
    hi matches Some(b) ==> lt(k, b)
}

/// `k` may separate two neighbours between `lo` and `hi`.
pub open spec fn sep_ok<K: PartialOrd>(lo: Option<K>, k: K, hi: Option<K>) -> bool {
    &&& lo matches Some(b) ==> le(b, k)
    &&& hi matches Some(b) ==> le(k, b)
}

/// Every key of `s` lies in `lo .. hi`.
pub open spec fn in_range<K: PartialOrd, V>(s: Seq<(K, V)>, lo: Option<K>, hi: Option<K>) -> bool {
    forall|i: int| 0 <= i < s.len() ==> lo_ok(lo, (#[trigger] s[i]).0) && hi_ok(s[i].0, hi)
}

/// The separators rise and lie in `lo ..= hi`.
pub open spec fn seps_ok<K: PartialOrd>(keys: Seq<K>, lo: Option<K>, hi: Option<K>) -> bool {
    &&& forall|i: int| 0 <= i < keys.len() ==> sep_ok(lo, #[trigger] keys[i], hi)
    &&& forall|i: int, j: int| #![trigger keys[i], keys[j]] 0 <= i < j < keys.len() ==> le(keys[i], keys[j])
}

/// How many of the leading keys do not sort after `k`: the child that `k` belongs to.
pub open spec fn route<K: PartialOrd>(keys: Seq<K>, k: K) -> nat
    decreases keys.len(),
{
    if keys.len() == 0 || lt(k, keys[0]) {
        0
    } else {
        1 + route(keys.drop_first(), k)
    }
}

impl<K, V> Tree<K, V> {
    /// The entries of the tree, from left to right.
    pub open spec fn contents(self) -> Seq<(K, V)>
        decreases self,
    {
        match self {
            Tree::Leaf(e) => e,
            Tree::Internal(_, ch) => flat(ch),
        }
    }

    /// The entries of a leaf, or the separators of an inner node.
    pub open spec fn count(self) -> nat {
        match self {
            Tree::Leaf(e) => e.len(),
            Tree::Internal(keys, _) => keys.len(),
        }
    }
}

impl<K: PartialOrd, V> Tree<K, V> {
    /// A search tree of height `h` whose keys lie in `lo .. hi`.
    pub open spec fn wf(self, h: nat, lo: Option<K>, hi: Option<K>) -> bool
        decreases h,
    {
        match self {
            Tree::Leaf(e) => h == 0 && sorted(e) && in_range(e, lo, hi),
            Tree::Internal(keys, ch) => {
                &&& h > 0
                &&& ch.len() == keys.len() + 1
                &&& seps_ok(keys, lo, hi)
                &&& forall|i: int|
                    0 <= i < ch.len() ==> (#[trigger] ch[i]).wf(
                        (h - 1) as nat,
                        child_lo(keys, i, lo),
                        child_hi(keys, i, hi),
                    )
            },
        }
    }
}

/// Two neighbours with the separator `s` between them, as one node.
pub open spec fn join<K, V>(l: Tree<K, V>, s: K, r: Tree<K, V>) -> Tree<K, V> {
    match (l, r) {
        (Tree::Leaf(a), Tree::Leaf(b)) => Tree::Leaf(a + b),
        (Tree::Internal(k1, c1), Tree::Internal(k2, c2)) => Tree::Internal(k1.push(s) + k2, c1 + c2),
        _ => arbitrary(),
    }
}

/// A node taken apart: the left part keeps `p` entries or separators.
pub open spec fn cut<K, V>(m: Tree<K, V>, p: int) -> (Tree<K, V>, K, Tree<K, V>) {
    match m {
        Tree::Leaf(e) => (Tree::Leaf(e.take(p)), e[p].0, Tree::Leaf(e.skip(p))),
        Tree::Internal(k, c) => (
            Tree::Internal(k.take(p), c.take(p + 1)),
            k[p],
            Tree::Internal(k.skip(p + 1), c.skip(p + 1)),
        ),
    }
}

/// An inner node whose children `ci` and `ci + 1`, and the separator between them, are
/// replaced.
pub open spec fn with_pair<K, V>(
    keys: Seq<K>,
    ch: Seq<Tree<K, V>>,
    ci: int,
    x: (Tree<K, V>, K, Tree<K, V>),
) -> Tree<K, V> {
    Tree::Internal(keys.update(ci, x.1), ch.update(ci, x.0).update(ci + 1, x.2))
}

/// An inner node whose child `ci` is replaced by two.
pub open spec fn with_two<K, V>(
    keys: Seq<K>,
    ch: Seq<Tree<K, V>>,
    ci: int,
    x: (Tree<K, V>, K, Tree<K, V>),
) -> Tree<K, V> {
    Tree::Internal(keys.insert(ci, x.1), ch.update(ci, x.0).insert(ci + 1, x.2))
}

/// An inner node whose children `ci` and `ci + 1` are replaced by one.
pub open spec fn with_one<K, V>(
    keys: Seq<K>,
    ch: Seq<Tree<K, V>>,
    ci: int,
    m: Tree<K, V>,
) -> Tree<K, V> {
    Tree::Internal(keys.remove(ci), ch.remove(ci + 1).update(ci, m))
}

pub proof fn lemma_flat_concat<K, V>(a: Seq<Tree<K, V>>, b: Seq<Tree<K, V>>)
    ensures
        flat(a + b) == flat(a) + flat(b),
    decreases b.len(),
{
    if b.len() == 0 {
        assert(a + b =~= a);
        assert(flat(a) + flat(b) =~= flat(a));
    } else {
        assert((a + b).drop_last() =~= a + b.drop_last());
        assert((a + b).last() == b.last());
        lemma_flat_concat(a, b.drop_last());
        assert(flat(a + b) =~= flat(a) + flat(b));
    }
}

pub proof fn lemma_flat_one<K, V>(c: Tree<K, V>)
    ensures
        flat(seq![c]) == c.contents(),
{
    let s = seq![c];
    assert(s.drop_last() =~= Seq::<Tree<K, V>>::empty());
    assert(flat(s.drop_last()) =~= Seq::<(K, V)>::empty());
    assert(s.last() == c);
    assert(flat(s) =~= c.contents());
}

/// The entries of a row of subtrees, with child `ci` set apart.
pub proof fn lemma_flat_at<K, V>(ch: Seq<Tree<K, V>>, ci: int)
    requires
        0 <= ci < ch.len(),
    ensures
        flat(ch) == flat(ch.take(ci)) + ch[ci].contents() + flat(ch.skip(ci + 1)),
{
    lemma_flat_one(ch[ci]);
    lemma_flat_concat(ch.take(ci), seq![ch[ci]]);
    lemma_flat_concat(ch.take(ci) + seq![ch[ci]], ch.skip(ci + 1));
    assert(ch =~= ch.take(ci) + seq![ch[ci]] + ch.skip(ci + 1));
}

/// Neighbouring subtrees of a well-formed inner node hold sorted entries between the
/// bounds of the first and the last of them.
pub proof fn lemma_flat_range<K: PartialOrd, V>(
    keys: Seq<K>,
    ch: Seq<Tree<K, V>>,
    h: nat,
    lo: Option<K>,
    hi: Option<K>,
    a: int,
    b: int,
)
    requires
        total_order::<K>(),
        Tree::Internal(keys, ch).wf(h, lo, hi),
        0 <= a < b <= ch.len(),
    ensures
        sorted(flat(ch.subrange(a, b))),
        in_range(flat(ch.subrange(a, b)), child_lo(keys, a, lo), child_hi(keys, b - 1, hi)),
    decreases h, 0int, b - a,
{
    let s = ch.subrange(a, b);
    let c = ch[b - 1];
    lemma_contents(c, (h - 1) as nat, child_lo(keys, b - 1, lo), child_hi(keys, b - 1, hi));
    assert(s.last() == c);
    assert(s.drop_last() =~= ch.subrange(a, b - 1));
    let x = flat(ch.subrange(a, b - 1));
    let y = c.contents();
    let z = flat(s);
    assert(z == x + y);
    if b == a + 1 {
        assert(ch.subrange(a, b - 1) =~= Seq::<Tree<K, V>>::empty());
        assert(z =~= y);
    } else {
        lemma_flat_range(keys, ch, h, lo, hi, a, b - 1);
        let m = keys[b - 2];
        assert(child_hi(keys, b - 2, hi) == Some(m));
        assert(child_lo(keys, b - 1, lo) == Some(m));
        assert forall|i: int| 0 <= i < z.len() implies lo_ok(child_lo(keys, a, lo), (#[trigger] z[i]).0)
            && hi_ok(z[i].0, child_hi(keys, b - 1, hi)) by {
            if i < x.len() {
                assert(z[i] == x[i]);
                assert(lt(x[i].0, m));
                if b - 1 < keys.len() {
                    assert(le(m, keys[b - 1]));
                } else {
                    assert(sep_ok(lo, m, hi));
                }
            } else {
                assert(z[i] == y[i - x.len()]);
                assert(le(m, y[i - x.len()].0));
                if a > 0 {
                    assert(a - 1 < b - 2);
                    assert(le(keys[a - 1], m));
                } else {
                    assert(sep_ok(lo, m, hi));
                }
            }
        }
        assert forall|i: int, j: int| #![trigger z[i], z[j]] 0 <= i < j < z.len() implies lt(z[i].0, z[j].0) by {
            if j < x.len() {
                assert(z[i] == x[i] && z[j] == x[j]);
            } else if i >= x.len() {
                assert(z[i] == y[i - x.len()] && z[j] == y[j - x.len()]);
            } else {
                assert(z[i] == x[i] && z[j] == y[j - x.len()]);
                assert(lt(x[i].0, m));
                assert(le(m, y[j - x.len()].0));
            }
        }
    }
}

/// What a well-formed tree holds is sorted and between its bounds.
pub proof fn lemma_contents<K: PartialOrd, V>(t: Tree<K, V>, h: nat, lo: Option<K>, hi: Option<K>)
    requires
        total_order::<K>(),
        t.wf(h, lo, hi),
    ensures
        sorted(t.contents()),
        in_range(t.contents(), lo, hi),
    decreases h, 1int, 0int,
{
    match t {
        Tree::Leaf(e) => {},
        Tree::Internal(keys, ch) => {
            lemma_flat_range(keys, ch, h, lo, hi, 0, ch.len() as int);
            assert(ch.subrange(0, ch.len() as int) =~= ch);
        },
    }
}

/// The keys before the route do not sort after `k`, the key at the route does.
pub proof fn lemma_route<K: PartialOrd>(keys: Seq<K>, k: K)
    ensures
        route(keys, k) <= keys.len(),
        forall|i: int| 0 <= i < route(keys, k) ==> le(#[trigger] keys[i], k),
        route(keys, k) < keys.len() ==> lt(k, keys[route(keys, k) as int]),
    decreases keys.len(),
{
    if keys.len() > 0 && !lt(k, keys[0]) {
        let t = keys.drop_first();
        lemma_route(t, k);
        assert forall|i: int| 0 <= i < route(keys, k) implies le(#[trigger] keys[i], k) by {
            if i > 0 {
                assert(keys[i] == t[i - 1]);
            }
        }
        if route(keys, k) < keys.len() {
            assert(keys[route(keys, k) as int] == t[route(t, k) as int]);
        }
    }
}

pub proof fn lemma_route_is<K: PartialOrd>(keys: Seq<K>, k: K, r: int)
    requires
        0 <= r <= keys.len(),
        forall|i: int| 0 <= i < r ==> le(#[trigger] keys[i], k),
        r < keys.len() ==> lt(k, keys[r]),
    ensures
        route(keys, k) == r,
{
    lemma_route(keys, k);
    if route(keys, k) < r {
        assert(le(keys[route(keys, k) as int], k));
    }
}

/// Everything left of the child that `k` belongs to is below `k`, everything right of it
/// is above, and `k` is within the bounds of that child.
pub proof fn lemma_routed<K: PartialOrd, V>(
    keys: Seq<K>,
    ch: Seq<Tree<K, V>>,
    h: nat,
    lo: Option<K>,
    hi: Option<K>,
    k: K,
)
    requires
        total_order::<K>(),
        Tree::Internal(keys, ch).wf(h, lo, hi),
        lo_ok(lo, k),
        hi_ok(k, hi),
    ensures
        0 <= route(keys, k) < ch.len(),
        all_below(flat(ch.take(route(keys, k) as int)), k),
        all_above(flat(ch.skip(route(keys, k) as int + 1)), k),
        lo_ok(child_lo(keys, route(keys, k) as int, lo), k),
        hi_ok(k, child_hi(keys, route(keys, k) as int, hi)),
{
    lemma_route(keys, k);
    let ci = route(keys, k) as int;
    if ci > 0 {
        lemma_flat_range(keys, ch, h, lo, hi, 0, ci);
        assert(ch.take(ci) =~= ch.subrange(0, ci));
        let x = flat(ch.take(ci));
        assert(le(keys[ci - 1], k));
        assert forall|i: int| 0 <= i < x.len() implies lt((#[trigger] x[i]).0, k) by {
            assert(hi_ok(x[i].0, Some(keys[ci - 1])));
        }
    }
    if ci + 1 < ch.len() {
        lemma_flat_range(keys, ch, h, lo, hi, ci + 1, ch.len() as int);
        assert(ch.skip(ci + 1) =~= ch.subrange(ci + 1, ch.len() as int));
        let x = flat(ch.skip(ci + 1));
        assert forall|i: int| 0 <= i < x.len() implies lt(k, (#[trigger] x[i]).0) by {
            assert(lo_ok(Some(keys[ci]), x[i].0));
        }
    }
}

/// A well-formed child may stand in for another.
pub proof fn lemma_with_child<K: PartialOrd, V>(
    keys: Seq<K>,
    ch: Seq<Tree<K, V>>,
    h: nat,
    lo: Option<K>,
    hi: Option<K>,
    ci: int,
    c: Tree<K, V>,
)
    requires
        Tree::Internal(keys, ch).wf(h, lo, hi),
        0 <= ci < ch.len(),
        c.wf((h - 1) as nat, child_lo(keys, ci, lo), child_hi(keys, ci, hi)),
    ensures
        Tree::Internal(keys, ch.update(ci, c)).wf(h, lo, hi),
        flat(ch.update(ci, c)) == flat(ch.take(ci)) + c.contents() + flat(ch.skip(ci + 1)),
{
    lemma_flat_at(ch.update(ci, c), ci);
    assert(ch.update(ci, c).take(ci) =~= ch.take(ci));
    assert(ch.update(ci, c).skip(ci + 1) =~= ch.skip(ci + 1));
}

/// Two neighbours joined are well-formed and hold what the two held.
pub proof fn lemma_join<K: PartialOrd, V>(
    l: Tree<K, V>,
    s: K,
    r: Tree<K, V>,
    h: nat,
    lo: Option<K>,
    hi: Option<K>,
)
    requires
        total_order::<K>(),
        l.wf(h, lo, Some(s)),
        r.wf(h, Some(s), hi),
        sep_ok(lo, s, hi),
    ensures
        join(l, s, r).wf(h, lo, hi),
        join(l, s, r).contents() == l.contents() + r.contents(),
        h == 0 ==> join(l, s, r).count() == l.count() + r.count(),
        h > 0 ==> join(l, s, r).count() == l.count() + r.count() + 1,
        h == 0 <==> join(l, s, r) is Leaf,
{
    match (l, r) {
        (Tree::Leaf(a), Tree::Leaf(b)) => {
            let e = a + b;
            assert forall|i: int, j: int| #![trigger e[i], e[j]] 0 <= i < j < e.len() implies lt(e[i].0, e[j].0) by {
                if j < a.len() {
                    assert(e[i] == a[i] && e[j] == a[j]);
                } else if i >= a.len() {
                    assert(e[i] == b[i - a.len()] && e[j] == b[j - a.len()]);
                } else {
                    assert(e[i] == a[i] && e[j] == b[j - a.len()]);
                    assert(hi_ok(a[i].0, Some(s)));
                    assert(lo_ok(Some(s), b[j - a.len()].0));
                }
            }
            assert forall|i: int| 0 <= i < e.len() implies lo_ok(lo, (#[trigger] e[i]).0) && hi_ok(e[i].0, hi) by {
                if i < a.len() {
                    assert(e[i] == a[i]);
                } else {
                    assert(e[i] == b[i - a.len()]);
                }
            }
        },
        (Tree::Internal(k1, c1), Tree::Internal(k2, c2)) => {
            let k = k1.push(s) + k2;
            let c = c1 + c2;
            lemma_flat_concat(c1, c2);
            let n = k1.len() as int;
            assert forall|i: int| 0 <= i < k.len() implies sep_ok(lo, #[trigger] k[i], hi) by {
                if i < n {
                    assert(k[i] == k1[i]);
                } else if i > n {
                    assert(k[i] == k2[i - n - 1]);
                }
            }
            assert forall|i: int, j: int| #![trigger k[i], k[j]] 0 <= i < j < k.len() implies le(k[i], k[j]) by {
                if i < n {
                    assert(k[i] == k1[i]);
                    assert(sep_ok(lo, k1[i], Some(s)));
                }
                if i > n {
                    assert(k[i] == k2[i - n - 1]);
                }
                if j < n {
                    assert(k[j] == k1[j]);
                }
                if j > n {
                    assert(k[j] == k2[j - n - 1]);
                    assert(sep_ok(Some(s), k2[j - n - 1], hi));
                }
            }
            assert forall|i: int| 0 <= i < c.len() implies (#[trigger] c[i]).wf(
                (h - 1) as nat,
                child_lo(k, i, lo),
                child_hi(k, i, hi),
            ) by {
                if i <= n {
                    assert(c[i] == c1[i]);
                    assert(child_lo(k, i, lo) == child_lo(k1, i, lo));
                    assert(child_hi(k, i, hi) == child_hi(k1, i, Some(s)));
                } else {
                    assert(c[i] == c2[i - n - 1]);
                    assert(child_lo(k, i, lo) == child_lo(k2, i - n - 1, Some(s)));
                    assert(child_hi(k, i, hi) == child_hi(k2, i - n - 1, hi));
                }
            }
        },
        _ => {},
    }
}

/// The parts of a node are well-formed and hold what the node held.
pub proof fn lemma_cut<K: PartialOrd, V>(
    m: Tree<K, V>,
    p: int,
    h: nat,
    lo: Option<K>,
    hi: Option<K>,
)
    requires
        total_order::<K>(),
        m.wf(h, lo, hi),
        0 <= p < m.count(),
    ensures
        ({
            let (l, s, r) = cut(m, p);
            &&& l.wf(h, lo, Some(s))
            &&& r.wf(h, Some(s), hi)
            &&& sep_ok(lo, s, hi)
            &&& m.contents() == l.contents() + r.contents()
            &&& l.count() == p
            &&& h == 0 ==> r.count() == m.count() - p
            &&& h > 0 ==> r.count() == m.count() - p - 1
        }),
{
    let (l, s, r) = cut(m, p);
    match m {
        Tree::Leaf(e) => {
            let a = e.take(p);
            let b = e.skip(p);
            assert(e[p] == b[0]);
            assert(lo_ok(lo, e[p].0) && hi_ok(e[p].0, hi));
            assert forall|i: int| 0 <= i < a.len() implies lo_ok(lo, (#[trigger] a[i]).0) && hi_ok(a[i].0, Some(s)) by {
                assert(a[i] == e[i]);
                assert(lt(e[i].0, e[p].0));
            }
            assert forall|i: int| 0 <= i < b.len() implies lo_ok(Some(s), (#[trigger] b[i]).0) && hi_ok(b[i].0, hi) by {
                assert(b[i] == e[i + p]);
                if i > 0 {
                    assert(lt(e[p].0, e[i + p].0));
                }
            }
            assert(sorted(a));
            assert(sorted(b));
            assert(e =~= a + b);
        },
        Tree::Internal(k, c) => {
            let k1 = k.take(p);
            let c1 = c.take(p + 1);
            let k2 = k.skip(p + 1);
            let c2 = c.skip(p + 1);
            assert(sep_ok(lo, k[p], hi));
            lemma_flat_concat(c1, c2);
            assert(c =~= c1 + c2);
            assert forall|i: int| 0 <= i < k1.len() implies sep_ok(lo, #[trigger] k1[i], Some(s)) by {
                assert(k1[i] == k[i]);
            }
            assert forall|i: int| 0 <= i < k2.len() implies sep_ok(Some(s), #[trigger] k2[i], hi) by {
                assert(k2[i] == k[i + p + 1]);
            }
            assert forall|i: int| 0 <= i < c1.len() implies (#[trigger] c1[i]).wf(
                (h - 1) as nat,
                child_lo(k1, i, lo),
                child_hi(k1, i, Some(s)),
            ) by {
                assert(c1[i] == c[i]);
                assert(child_lo(k1, i, lo) == child_lo(k, i, lo));
                assert(child_hi(k1, i, Some(s)) == child_hi(k, i, hi));
            }
            assert forall|i: int| 0 <= i < c2.len() implies (#[trigger] c2[i]).wf(
                (h - 1) as nat,
                child_lo(k2, i, Some(s)),
                child_hi(k2, i, hi),
            ) by {
                assert(c2[i] == c[i + p + 1]);
                assert(child_lo(k2, i, Some(s)) == child_lo(k, i + p + 1, lo));
                assert(child_hi(k2, i, hi) == child_hi(k, i + p + 1, hi));
            }
        },
    }
}

/// A bound that lies between those of child `i` lies between those of the node.
proof fn lemma_sep_widen<K: PartialOrd, V>(
    keys: Seq<K>,
    ch: Seq<Tree<K, V>>,
    h: nat,
    lo: Option<K>,
    hi: Option<K>,
    a: int,
    b: int,
    s: K,
)
    requires
        total_order::<K>(),
        Tree::Internal(keys, ch).wf(h, lo, hi),
        0 <= a <= b <= keys.len(),
        sep_ok(child_lo(keys, a, lo), s, child_hi(keys, b, hi)),
    ensures
        sep_ok(lo, s, hi),
        forall|i: int| 0 <= i < a ==> le(#[trigger] keys[i], s),
        forall|i: int| b <= i < keys.len() ==> le(s, #[trigger] keys[i]),
{
    if a > 0 {
        assert(sep_ok(lo, keys[a - 1], hi));
        assert forall|i: int| 0 <= i < a implies le(#[trigger] keys[i], s) by {
            if i < a - 1 {
                assert(le(keys[i], keys[a - 1]));
            }
        }
    }
    if b < keys.len() {
        assert(sep_ok(lo, keys[b], hi));
        assert forall|i: int| b <= i < keys.len() implies le(s, #[trigger] keys[i]) by {
            if i > b {
                assert(le(keys[b], keys[i]));
            }
        }
    }
}

/// Two neighbours may be replaced by two that hold the same between the same bounds.
pub proof fn lemma_with_pair<K: PartialOrd, V>(
    keys: Seq<K>,
    ch: Seq<Tree<K, V>>,
    h: nat,
    lo: Option<K>,
    hi: Option<K>,
    ci: int,
    x: (Tree<K, V>, K, Tree<K, V>),
)
    requires
        total_order::<K>(),
        Tree::Internal(keys, ch).wf(h, lo, hi),
        0 <= ci < keys.len(),
        x.0.wf((h - 1) as nat, child_lo(keys, ci, lo), Some(x.1)),
        x.2.wf((h - 1) as nat, Some(x.1), child_hi(keys, ci + 1, hi)),
        sep_ok(child_lo(keys, ci, lo), x.1, child_hi(keys, ci + 1, hi)),
        x.0.contents() + x.2.contents() == ch[ci].contents() + ch[ci + 1].contents(),
    ensures
        with_pair(keys, ch, ci, x).wf(h, lo, hi),
        with_pair(keys, ch, ci, x).contents() == flat(ch),
{
    let k2 = keys.update(ci, x.1);
    let c2 = ch.update(ci, x.0).update(ci + 1, x.2);
    lemma_sep_widen(keys, ch, h, lo, hi, ci, ci + 1, x.1);
    assert forall|i: int| 0 <= i < c2.len() implies (#[trigger] c2[i]).wf(
        (h - 1) as nat,
        child_lo(k2, i, lo),
        child_hi(k2, i, hi),
    ) by {
        if i != ci && i != ci + 1 {
            assert(c2[i] == ch[i]);
            assert(child_lo(k2, i, lo) == child_lo(keys, i, lo));
            assert(child_hi(k2, i, hi) == child_hi(keys, i, hi));
        }
    }
    lemma_flat_at(ch, ci);
    lemma_flat_at(ch.skip(ci + 1), 0);
    lemma_flat_at(c2, ci);
    lemma_flat_at(c2.skip(ci + 1), 0);
    assert(c2.take(ci) =~= ch.take(ci));
    assert(c2.skip(ci + 1).skip(1) =~= ch.skip(ci + 1).skip(1));
    assert(c2.skip(ci + 1).take(0) =~= ch.skip(ci + 1).take(0));
    assert(flat(ch.skip(ci + 1).take(0)) =~= Seq::<(K, V)>::empty());
    let rest = flat(ch.skip(ci + 1).skip(1));
    assert(flat(ch) =~= flat(ch.take(ci)) + (ch[ci].contents() + ch[ci + 1].contents()) + rest);
    assert(flat(c2) =~= flat(ch.take(ci)) + (x.0.contents() + x.2.contents()) + rest);
}

/// A child may be replaced by two that hold the same between the same bounds.
pub proof fn lemma_with_two<K: PartialOrd, V>(
    keys: Seq<K>,
    ch: Seq<Tree<K, V>>,
    h: nat,
    lo: Option<K>,
    hi: Option<K>,
    ci: int,
    x: (Tree<K, V>, K, Tree<K, V>),
)
    requires
        total_order::<K>(),
        Tree::Internal(keys, ch).wf(h, lo, hi),
        0 <= ci <= keys.len(),
        x.0.wf((h - 1) as nat, child_lo(keys, ci, lo), Some(x.1)),
        x.2.wf((h - 1) as nat, Some(x.1), child_hi(keys, ci, hi)),
        sep_ok(child_lo(keys, ci, lo), x.1, child_hi(keys, ci, hi)),
        x.0.contents() + x.2.contents() == ch[ci].contents(),
    ensures
        with_two(keys, ch, ci, x).wf(h, lo, hi),
        with_two(keys, ch, ci, x).contents() == flat(ch),
{
    let k2 = keys.insert(ci, x.1);
    let c2 = ch.update(ci, x.0).insert(ci + 1, x.2);
    lemma_sep_widen(keys, ch, h, lo, hi, ci, ci, x.1);
    assert forall|i: int| 0 <= i < k2.len() implies sep_ok(lo, #[trigger] k2[i], hi) by {
        if i < ci {
            assert(k2[i] == keys[i]);
        } else if i > ci {
            assert(k2[i] == keys[i - 1]);
        }
    }
    assert forall|i: int, j: int| #![trigger k2[i], k2[j]] 0 <= i < j < k2.len() implies le(k2[i], k2[j]) by {
        if i < ci {
            assert(k2[i] == keys[i]);
        } else if i > ci {
            assert(k2[i] == keys[i - 1]);
        }
        if j < ci {
            assert(k2[j] == keys[j]);
        } else if j > ci {
            assert(k2[j] == keys[j - 1]);
        }
    }
    assert forall|i: int| 0 <= i < c2.len() implies (#[trigger] c2[i]).wf(
        (h - 1) as nat,
        child_lo(k2, i, lo),
        child_hi(k2, i, hi),
    ) by {
        if i < ci {
            assert(c2[i] == ch[i]);
            assert(child_lo(k2, i, lo) == child_lo(keys, i, lo));
            assert(child_hi(k2, i, hi) == child_hi(keys, i, hi));
        } else if i > ci + 1 {
            assert(c2[i] == ch[i - 1]);
            assert(child_lo(k2, i, lo) == child_lo(keys, i - 1, lo));
            assert(child_hi(k2, i, hi) == child_hi(keys, i - 1, hi));
        } else {
            assert(child_lo(k2, ci, lo) == child_lo(keys, ci, lo));
            assert(child_hi(k2, ci + 1, hi) == child_hi(keys, ci, hi));
        }
    }
    lemma_flat_at(ch, ci);
    lemma_flat_at(c2, ci);
    lemma_flat_at(c2.skip(ci + 1), 0);
    assert(c2.take(ci) =~= ch.take(ci));
    assert(c2.skip(ci + 1).skip(1) =~= ch.skip(ci + 1));
    assert(flat(c2.skip(ci + 1).take(0)) =~= Seq::<(K, V)>::empty());
    assert(flat(c2) =~= flat(ch.take(ci)) + (x.0.contents() + x.2.contents()) + flat(ch.skip(ci + 1)));
}

/// Two neighbours may be replaced by one that holds the same between the same bounds.
pub proof fn lemma_with_one<K: PartialOrd, V>(
    keys: Seq<K>,
    ch: Seq<Tree<K, V>>,
    h: nat,
    lo: Option<K>,
    hi: Option<K>,
    ci: int,
    m: Tree<K, V>,
)
    requires
        Tree::Internal(keys, ch).wf(h, lo, hi),
        0 <= ci < keys.len(),
        m.wf((h - 1) as nat, child_lo(keys, ci, lo), child_hi(keys, ci + 1, hi)),
        m.contents() == ch[ci].contents() + ch[ci + 1].contents(),
    ensures
        with_one(keys, ch, ci, m).wf(h, lo, hi),
        with_one(keys, ch, ci, m).contents() == flat(ch),
{
    let k2 = keys.remove(ci);
    let c2 = ch.remove(ci + 1).update(ci, m);
    assert forall|i: int| 0 <= i < k2.len() implies sep_ok(lo, #[trigger] k2[i], hi) by {
        if i < ci {
            assert(k2[i] == keys[i]);
        } else {
            assert(k2[i] == keys[i + 1]);
        }
    }
    assert forall|i: int, j: int| #![trigger k2[i], k2[j]] 0 <= i < j < k2.len() implies le(k2[i], k2[j]) by {
        let i2 = if i < ci { i } else { i + 1 };
        let j2 = if j < ci { j } else { j + 1 };
        assert(k2[i] == keys[i2] && k2[j] == keys[j2]);
    }
    assert forall|i: int| 0 <= i < c2.len() implies (#[trigger] c2[i]).wf(
        (h - 1) as nat,
        child_lo(k2, i, lo),
        child_hi(k2, i, hi),
    ) by {
        if i < ci {
            assert(c2[i] == ch[i]);
            assert(child_lo(k2, i, lo) == child_lo(keys, i, lo));
            assert(child_hi(k2, i, hi) == child_hi(keys, i, hi));
        } else if i > ci {
            assert(c2[i] == ch[i + 1]);
            assert(child_lo(k2, i, lo) == child_lo(keys, i + 1, lo));
            assert(child_hi(k2, i, hi) == child_hi(keys, i + 1, hi));
        } else {
            assert(child_lo(k2, ci, lo) == child_lo(keys, ci, lo));
            assert(child_hi(k2, ci, hi) == child_hi(keys, ci + 1, hi));
        }
    }
    lemma_flat_at(ch, ci);
    lemma_flat_at(ch.skip(ci + 1), 0);
    lemma_flat_at(c2, ci);
    assert(c2.take(ci) =~= ch.take(ci));
    assert(c2.skip(ci + 1) =~= ch.skip(ci + 1).skip(1));
    assert(flat(ch.skip(ci + 1).take(0)) =~= Seq::<(K, V)>::empty());
    assert(flat(ch) =~= flat(ch.take(ci)) + (ch[ci].contents() + ch[ci + 1].contents()) + flat(ch.skip(ci + 1).skip(1)));
}

/// A leaf stays well-formed when an entry of its range is put or deleted.
pub proof fn lemma_leaf_change<K: PartialOrd, V>(
    s: Seq<(K, V)>,
    lo: Option<K>,
    hi: Option<K>,
    k: K,
    v: V,
)
    requires
        total_order::<K>(),
        Tree::Leaf(s).wf(0, lo, hi),
    ensures
        lo_ok(lo, k) && hi_ok(k, hi) ==> Tree::Leaf(put(s, k, v)).wf(0, lo, hi),
        Tree::Leaf(del(s, k)).wf(0, lo, hi),
{
    lemma_put_del_sorted(s, k, v);
    lemma_rank(s, k);
    let r = rank(s, k) as int;
    let p = put(s, k, v);
    let d = del(s, k);
    assert forall|i: int| lo_ok(lo, k) && hi_ok(k, hi) && 0 <= i < p.len() implies lo_ok(
        lo,
        (#[trigger] p[i]).0,
    ) && hi_ok(p[i].0, hi) by {
        if p.len() == s.len() || i < r {
            assert(p[i].0 == s[i].0);
        } else if i > r {
            assert(p[i] == s[i - 1]);
        }
    }
    assert forall|i: int| 0 <= i < d.len() implies lo_ok(lo, (#[trigger] d[i]).0) && hi_ok(d[i].0, hi) by {
        if d.len() == s.len() || i < r {
            assert(d[i] == s[i]);
        } else {
            assert(d[i] == s[i + 1]);
        }
    }
}

/// Looking up and changing a key of an inner node happen in the child it belongs to.
pub proof fn lemma_descend<K: PartialOrd, V>(
    keys: Seq<K>,
    ch: Seq<Tree<K, V>>,
    h: nat,
    lo: Option<K>,
    hi: Option<K>,
    k: K,
    v: V,
)
    requires
        total_order::<K>(),
        Tree::Internal(keys, ch).wf(h, lo, hi),
        lo_ok(lo, k),
        hi_ok(k, hi),
    ensures
        ({
            let ci = route(keys, k) as int;
            let c = ch[ci].contents();
            let a = flat(ch.take(ci));
            let b = flat(ch.skip(ci + 1));
            &&& 0 <= ci < ch.len()
            &&& ch[ci].wf((h - 1) as nat, child_lo(keys, ci, lo), child_hi(keys, ci, hi))
            &&& lo_ok(child_lo(keys, ci, lo), k)
            &&& hi_ok(k, child_hi(keys, ci, hi))
            &&& present(flat(ch), k) == present(c, k)
            &&& get(flat(ch), k) == get(c, k)
            &&& put(flat(ch), k, v) == a + put(c, k, v) + b
            &&& del(flat(ch), k) == a + del(c, k) + b
        }),
{
    lemma_routed(keys, ch, h, lo, hi, k);
    let ci = route(keys, k) as int;
    lemma_flat_at(ch, ci);
    lemma_middle(flat(ch.take(ci)), ch[ci].contents(), flat(ch.skip(ci + 1)), k, v);
}

} // verus!
