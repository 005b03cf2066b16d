//! Trees of byte strings, and how the paged tree reshapes them.
//!
//! The separator between two subtrees may occur on both sides of it: the way down to a key
//! goes to the left of a separator that equals it, while the separators that are put between
//! leaves are the first keys of the leaves to their right.
use crate::bytes::{bytes_le, bytes_lt, lemma_bytes_order, lemma_irreflexive, rank_of, Rank};
use crate::codec::NodeView;
use crate::tree::{
    child_hi, child_lo, cut, flat, join, lemma_flat_at, lemma_flat_concat, lemma_flat_one, Tree,
};
use vstd::prelude::*;

verus! {

/// A key and its value.
pub type Entry = (Seq<u8>, Seq<u8>);

pub type ByteTree = Tree<Seq<u8>, Seq<u8>>;

/// The keys of the entries do not fall.
pub open spec fn rising(e: Seq<Entry>) -> bool {
    forall|i: int, j: int| #![trigger e[i], e[j]] 0 <= i < j < e.len() ==> bytes_le(e[i].0, e[j].0)
}

/// The keys of the entries rise: no key occurs twice.
pub open spec fn strict(e: Seq<Entry>) -> bool {
    forall|i: int, j: int| #![trigger e[i], e[j]] 0 <= i < j < e.len() ==> bytes_lt(e[i].0, e[j].0)
}

/// `k` lies in `lo ..= hi`.
pub open spec fn within(lo: Option<Seq<u8>>, k: Seq<u8>, hi: Option<Seq<u8>>) -> bool {
    &&& lo matches Some(b) ==> bytes_le(b, k)
    &&& hi matches Some(b) ==> bytes_le(k, b)
}

/// The separators do not fall, and lie in `lo ..= hi`.
pub open spec fn fences(keys: Seq<Seq<u8>>, lo: Option<Seq<u8>>, hi: Option<Seq<u8>>) -> bool {
    &&& forall|i: int| 0 <= i < keys.len() ==> within(lo, #[trigger] keys[i], hi)
    &&& forall|i: int, j: int|
        #![trigger keys[i], keys[j]]
        0 <= i < j < keys.len() ==> bytes_le(keys[i], keys[j])
}

/// A search tree of height `h` whose keys lie in `lo ..= hi`.
pub open spec fn sorted_tree(m: ByteTree, h: nat, lo: Option<Seq<u8>>, hi: Option<Seq<u8>>) -> bool
    decreases h,
{
    match m {
        Tree::Leaf(e) => {
            &&& h == 0
            &&& rising(e)
            &&& forall|i: int| 0 <= i < e.len() ==> within(lo, (#[trigger] e[i]).0, hi)
        },
        Tree::Internal(keys, ch) => {
            &&& h > 0
            &&& ch.len() == keys.len() + 1
            &&& fences(keys, lo, hi)
            &&& forall|i: int|
                0 <= i < ch.len() ==> sorted_tree(
                    #[trigger] ch[i],
                    (h - 1) as nat,
                    child_lo(keys, i, lo),
                    child_hi(keys, i, hi),
                )
        },
    }
}

/// How many of the leading keys are below `k`: the child that the way down to `k` takes.
pub open spec fn left_route(keys: Seq<Seq<u8>>, k: Seq<u8>) -> nat
    decreases keys.len(),
{
    if keys.len() == 0 || !bytes_lt(keys[0], k) {
        0
    } else {
        1 + left_route(keys.drop_first(), k)
    }
}

/// How many of the leading keys are not above `k`: the child that the way down takes past a
/// node that was reshaped.
pub open spec fn right_route(keys: Seq<Seq<u8>>, k: Seq<u8>) -> nat
    decreases keys.len(),
{
    if keys.len() == 0 || bytes_lt(k, keys[0]) {
        0
    } else {
        1 + right_route(keys.drop_first(), k)
    }
}

/// How many of the leading entries are below `k`.
pub open spec fn place(e: Seq<Entry>, k: Seq<u8>) -> nat
    decreases e.len(),
{
    if e.len() == 0 || !bytes_lt(e[0].0, k) {
        0
    } else {
        1 + place(e.drop_first(), k)
    }
}

/// An entry for `k` stands at its place.
pub open spec fn found(e: Seq<Entry>, k: Seq<u8>) -> bool {
    place(e, k) < e.len() && e[place(e, k) as int].0 == k
}

/// `e` with `v` under `k`.
pub open spec fn put(e: Seq<Entry>, k: Seq<u8>, v: Seq<u8>) -> Seq<Entry> {
    if found(e, k) {
        e.update(place(e, k) as int, (k, v))
    } else {
        e.insert(place(e, k) as int, (k, v))
    }
}

/// `e` without its first entry for `k`.
pub open spec fn del(e: Seq<Entry>, k: Seq<u8>) -> Seq<Entry> {
    if found(e, k) {
        e.remove(place(e, k) as int)
    } else {
        e
    }
}

/// What `e` has under `k`.
pub open spec fn get(e: Seq<Entry>, k: Seq<u8>) -> Option<Seq<u8>> {
    if found(e, k) {
        Some(e[place(e, k) as int].1)
    } else {
        None
    }
}

pub proof fn lemma_left_route(keys: Seq<Seq<u8>>, k: Seq<u8>)
    ensures
        left_route(keys, k) <= keys.len(),
        forall|i: int| 0 <= i < left_route(keys, k) ==> bytes_lt(#[trigger] keys[i], k),
        left_route(keys, k) < keys.len() ==> !bytes_lt(keys[left_route(keys, k) as int], k),
    decreases keys.len(),
{
    if keys.len() > 0 && bytes_lt(keys[0], k) {
        let t = keys.drop_first();
        lemma_left_route(t, k);
        assert forall|i: int| 0 <= i < left_route(keys, k) implies bytes_lt(#[trigger] keys[i], k) by {
            if i > 0 {
                assert(keys[i] == t[i - 1]);
            }
        }
        if left_route(keys, k) < keys.len() {
            assert(keys[left_route(keys, k) as int] == t[left_route(t, k) as int]);
        }
    }
}

pub proof fn lemma_right_route(keys: Seq<Seq<u8>>, k: Seq<u8>)
    ensures
        right_route(keys, k) <= keys.len(),
        forall|i: int| 0 <= i < right_route(keys, k) ==> bytes_le(#[trigger] keys[i], k),
        right_route(keys, k) < keys.len() ==> bytes_lt(k, keys[right_route(keys, k) as int]),
    decreases keys.len(),
{
    if keys.len() > 0 && !bytes_lt(k, keys[0]) {
        let t = keys.drop_first();
        lemma_right_route(t, k);
        assert forall|i: int| 0 <= i < right_route(keys, k) implies bytes_le(#[trigger] keys[i], k) by {
            if i > 0 {
                assert(keys[i] == t[i - 1]);
            }
        }
        if right_route(keys, k) < keys.len() {
            assert(keys[right_route(keys, k) as int] == t[right_route(t, k) as int]);
        }
    }
}

pub proof fn lemma_place(e: Seq<Entry>, k: Seq<u8>)
    ensures
        place(e, k) <= e.len(),
        forall|i: int| 0 <= i < place(e, k) ==> bytes_lt((#[trigger] e[i]).0, k),
        place(e, k) < e.len() ==> !bytes_lt(e[place(e, k) as int].0, k),
    decreases e.len(),
{
    if e.len() > 0 && bytes_lt(e[0].0, k) {
        let t = e.drop_first();
        lemma_place(t, k);
        assert forall|i: int| 0 <= i < place(e, k) implies bytes_lt((#[trigger] e[i]).0, k) by {
            if i > 0 {
                assert(e[i] == t[i - 1]);
            }
        }
        if place(e, k) < e.len() {
            assert(e[place(e, k) as int] == t[place(t, k) as int]);
        }
    }
}

/// Among keys that do not fall, the place between the lower ones and the others is the route.
pub proof fn lemma_left_route_is(keys: Seq<Seq<u8>>, k: Seq<u8>, c: int)
    requires
        fences(keys, None, None),
        0 <= c <= keys.len(),
        c > 0 ==> bytes_lt(keys[c - 1], k),
        c < keys.len() ==> !bytes_lt(keys[c], k),
    ensures
        left_route(keys, k) == c,
{
    lemma_bytes_order();
    lemma_left_route(keys, k);
    let r = left_route(keys, k) as int;
    if r < c {
        assert(bytes_le(keys[r], keys[c - 1]) || r == c - 1);
    } else if c < r {
        assert(bytes_lt(keys[c], k));
    }
}

pub proof fn lemma_right_route_is(keys: Seq<Seq<u8>>, k: Seq<u8>, c: int)
    requires
        fences(keys, None, None),
        0 <= c <= keys.len(),
        c > 0 ==> bytes_le(keys[c - 1], k),
        c < keys.len() ==> bytes_lt(k, keys[c]),
    ensures
        right_route(keys, k) == c,
{
    lemma_bytes_order();
    lemma_right_route(keys, k);
    let r = right_route(keys, k) as int;
    if r < c {
        assert(bytes_le(keys[r], keys[c - 1]) || r == c - 1);
    } else if c < r {
        assert(bytes_le(keys[c], k));
    }
}

pub proof fn lemma_place_is(e: Seq<Entry>, k: Seq<u8>, c: int)
    requires
        rising(e),
        0 <= c <= e.len(),
        c > 0 ==> bytes_lt(e[c - 1].0, k),
        c < e.len() ==> !bytes_lt(e[c].0, k),
    ensures
        place(e, k) == c,
{
    lemma_bytes_order();
    lemma_place(e, k);
    let r = place(e, k) as int;
    if r < c {
        assert(bytes_le(e[r].0, e[c - 1].0) || r == c - 1);
    } else if c < r {
        assert(bytes_lt(e[c].0, k));
    }
}

/// In entries that do not fall a key that occurs is found.
pub proof fn lemma_found(e: Seq<Entry>, k: Seq<u8>, i: int)
    requires
        rising(e),
        0 <= i < e.len(),
        e[i].0 == k,
    ensures
        found(e, k),
{
    lemma_bytes_order();
    lemma_place(e, k);
    let r = place(e, k) as int;
    assert(r <= i) by {
        if r > i {
            assert(bytes_lt(e[i].0, k));
        }
    }
    if r < i {
        assert(bytes_le(e[r].0, e[i].0));
    }
}

/// Putting and deleting keep the order and the bounds.
pub proof fn lemma_leaf_change(
    e: Seq<Entry>,
    lo: Option<Seq<u8>>,
    hi: Option<Seq<u8>>,
    k: Seq<u8>,
    v: Seq<u8>,
)
    requires
        sorted_tree(Tree::Leaf(e), 0, lo, hi),
    ensures
        within(lo, k, hi) ==> sorted_tree(Tree::Leaf(put(e, k, v)), 0, lo, hi),
        sorted_tree(Tree::Leaf(del(e, k)), 0, lo, hi),
{
    lemma_bytes_order();
    lemma_place(e, k);
    let r = place(e, k) as int;
    assert forall|i: int| r <= i < e.len() implies bytes_le(k, (#[trigger] e[i]).0) by {
        if i > r {
            assert(bytes_le(e[r].0, e[i].0));
        }
    }
}

// Dealing ------------------------------------------------------------------------------

/// Where part `i` begins when `total` things are dealt into `n` parts as evenly as can be,
/// the larger parts first.
pub open spec fn begin(total: int, n: int, i: int) -> int {
    i * (total / n) + (if i < total % n {
        i
    } else {
        total % n
    })
}

/// The size of part `i`.
pub open spec fn share(total: int, n: int, i: int) -> int {
    total / n + (if i < total % n {
        1int
    } else {
        0int
    })
}

pub proof fn lemma_begin(total: int, n: int, i: int)
    requires
        0 <= total,
        1 <= n,
        0 <= i <= n,
    ensures
        begin(total, n, 0) == 0,
        begin(total, n, n) == total,
        i < n ==> begin(total, n, i + 1) == begin(total, n, i) + share(total, n, i),
        0 <= begin(total, n, i) <= total,
        n <= total ==> i < n ==> share(total, n, i) >= 1,
        0 <= total / n,
        0 <= total % n < n,
        share(total, n, i) >= 0,
{
    let q = total / n;
    let r = total % n;
    assert(total == n * q + r && 0 <= r < n && 0 <= q) by (nonlinear_arith)
        requires
            q == total / n,
            r == total % n,
            1 <= n,
            0 <= total,
    ;
    assert(0 * q == 0);
    assert((i + 1) * q == i * q + q) by (nonlinear_arith);
    assert(0 <= i * q <= n * q) by (nonlinear_arith)
        requires
            0 <= i <= n,
            0 <= q,
    ;
    assert(n <= total ==> q >= 1) by (nonlinear_arith)
        requires
            total == n * q + r,
            r < n,
            1 <= n,
    ;
}

/// The parts of a node that is dealt out to `n` nodes.
pub open spec fn part(m: ByteTree, n: int, i: int) -> ByteTree {
    match m {
        Tree::Leaf(e) => {
            let t = e.len() as int;
            Tree::Leaf(e.subrange(begin(t, n, i), begin(t, n, i + 1)))
        },
        Tree::Internal(keys, ch) => {
            let t = keys.len() - (n - 1);
            let a = begin(t, n, i) + i;
            let b = begin(t, n, i + 1) + i;
            Tree::Internal(keys.subrange(a, b), ch.subrange(a, b + 1))
        },
    }
}

/// The separator behind part `i`.
pub open spec fn fence(m: ByteTree, n: int, i: int) -> Seq<u8> {
    match m {
        Tree::Leaf(e) => e[begin(e.len() as int, n, i + 1)].0,
        Tree::Internal(keys, _) => keys[begin(keys.len() - (n - 1), n, i + 1) + i],
    }
}

pub open spec fn parts(m: ByteTree, n: int) -> Seq<ByteTree> {
    Seq::new(n as nat, |i: int| part(m, n, i))
}

pub open spec fn part_fences(m: ByteTree, n: int) -> Seq<Seq<u8>> {
    Seq::new((n - 1) as nat, |i: int| fence(m, n, i))
}

/// A node can be dealt out to `n` nodes: no leaf but the first would be empty.
pub open spec fn can_deal(m: ByteTree, n: int) -> bool {
    match m {
        Tree::Leaf(e) => n == 1 || n <= e.len(),
        Tree::Internal(keys, _) => n - 1 <= keys.len(),
    }
}

/// Neighbours `l` to `r` as one node.
pub open spec fn joined(keys: Seq<Seq<u8>>, ch: Seq<ByteTree>, l: int, r: int) -> ByteTree
    decreases r - l,
{
    if r <= l {
        ch[l]
    } else {
        join(joined(keys, ch, l, r - 1), keys[r - 1], ch[r])
    }
}

/// The first neighbour that is rebalanced together with child `ci`.
pub open spec fn window_left(ci: int) -> int {
    if ci == 0 {
        0
    } else {
        ci - 1
    }
}

/// The last one.
pub open spec fn window_right(ci: int, len: int) -> int {
    if ci + 1 < len {
        ci + 1
    } else {
        len - 1
    }
}

/// What children `l` to `r` hold together.
pub open spec fn load(ch: Seq<ByteTree>, l: int, r: int) -> nat
    decreases r - l + 1,
{
    if r < l {
        0
    } else {
        load(ch, l, r - 1) + ch[r].count()
    }
}

/// How many nodes a window of `w` nodes that hold `load` together is dealt out to.
pub open spec fn target(load: int, w: int, t: int, max: int) -> int {
    if load > w * (max - 1) {
        w + 1
    } else if load < w * t && w > 1 {
        w - 1
    } else {
        w
    }
}

/// How many nodes the window around child `ci` is dealt out to.
pub open spec fn window_target(ch: Seq<ByteTree>, ci: int, t: int, max: int) -> int {
    let l = window_left(ci);
    let r = window_right(ci, ch.len() as int);
    target(load(ch, l, r) as int, r - l + 1, t, max)
}

/// Children `l` to `r` replaced by `n` nodes that share what they held.
pub open spec fn dealt(keys: Seq<Seq<u8>>, ch: Seq<ByteTree>, l: int, r: int, n: int) -> ByteTree {
    let m = joined(keys, ch, l, r);
    Tree::Internal(
        keys.take(l) + part_fences(m, n) + keys.skip(r),
        ch.take(l) + parts(m, n) + ch.skip(r + 1),
    )
}

/// A node after the window around its child `ci` was rebalanced.
pub open spec fn rebalanced(
    keys: Seq<Seq<u8>>,
    ch: Seq<ByteTree>,
    ci: int,
    t: int,
    max: int,
) -> ByteTree {
    dealt(
        keys,
        ch,
        window_left(ci),
        window_right(ci, ch.len() as int),
        window_target(ch, ci, t, max),
    )
}

/// The window around child `ci` can be rebalanced.
pub open spec fn can_rebalance(
    keys: Seq<Seq<u8>>,
    ch: Seq<ByteTree>,
    ci: int,
    t: int,
    max: int,
) -> bool {
    can_deal(
        joined(keys, ch, window_left(ci), window_right(ci, ch.len() as int)),
        window_target(ch, ci, t, max),
    )
}

pub proof fn lemma_join(
    a: ByteTree,
    s: Seq<u8>,
    b: ByteTree,
    h: nat,
    lo: Option<Seq<u8>>,
    hi: Option<Seq<u8>>,
)
    requires
        sorted_tree(a, h, lo, Some(s)),
        sorted_tree(b, h, Some(s), hi),
        within(lo, s, hi),
    ensures
        sorted_tree(join(a, s, b), h, lo, hi),
        join(a, s, b).contents() == a.contents() + b.contents(),
        join(a, s, b).count() == a.count() + b.count() + (if h == 0 {
            0int
        } else {
            1int
        }),
{
    lemma_bytes_order();
    match (a, b) {
        (Tree::Leaf(x), Tree::Leaf(y)) => {
            assert forall|i: int, j: int| 0 <= i < j < (x + y).len() implies bytes_le(
                (#[trigger] (x + y)[i]).0,
                (#[trigger] (x + y)[j]).0,
            ) by {
                if i < x.len() && j >= x.len() {
                    assert(within(lo, x[i].0, Some(s)));
                    assert(within(Some(s), y[j - x.len()].0, hi));
                }
            }
        },
        (Tree::Internal(k1, c1), Tree::Internal(k2, c2)) => {
            let k = k1.push(s) + k2;
            let c = c1 + c2;
            lemma_flat_concat(c1, c2);
            assert forall|i: int, j: int| 0 <= i < j < k.len() implies bytes_le(
                #[trigger] k[i],
                #[trigger] k[j],
            ) by {
                if i < k1.len() {
                    assert(within(lo, k1[i], Some(s)));
                }
                if j > k1.len() {
                    assert(within(Some(s), k2[j - k1.len() - 1], hi));
                }
            }
            assert forall|i: int| 0 <= i < k.len() implies within(lo, #[trigger] k[i], hi) by {
                if i < k1.len() {
                    assert(within(lo, k1[i], Some(s)));
                } else if i > k1.len() {
                    assert(within(Some(s), k2[i - k1.len() - 1], hi));
                }
            }
            assert forall|i: int| 0 <= i < c.len() implies sorted_tree(
                #[trigger] c[i],
                (h - 1) as nat,
                child_lo(k, i, lo),
                child_hi(k, i, hi),
            ) by {
                if i < c1.len() {
                    assert(sorted_tree(
                        c1[i],
                        (h - 1) as nat,
                        child_lo(k1, i, lo),
                        child_hi(k1, i, Some(s)),
                    ));
                } else {
                    let j = i - c1.len();
                    assert(sorted_tree(
                        c2[j],
                        (h - 1) as nat,
                        child_lo(k2, j, Some(s)),
                        child_hi(k2, j, hi),
                    ));
                }
            }
        },
        _ => {},
    }
}

pub proof fn lemma_joined(
    keys: Seq<Seq<u8>>,
    ch: Seq<ByteTree>,
    h: nat,
    lo: Option<Seq<u8>>,
    hi: Option<Seq<u8>>,
    l: int,
    r: int,
)
    requires
        sorted_tree(Tree::Internal(keys, ch), h, lo, hi),
        0 <= l <= r < ch.len(),
    ensures
        sorted_tree(joined(keys, ch, l, r), (h - 1) as nat, child_lo(keys, l, lo), child_hi(keys, r, hi)),
        joined(keys, ch, l, r).contents() == flat(ch.subrange(l, r + 1)),
        joined(keys, ch, l, r).count() == load(ch, l, r) + (if h == 1 {
            0int
        } else {
            r - l
        }),
        joined(keys, ch, l, r) is Leaf == (h == 1),
    decreases r - l,
{
    lemma_bytes_order();
    assert(sorted_tree(ch[l], (h - 1) as nat, child_lo(keys, l, lo), child_hi(keys, l, hi)));
    if l == r {
        assert(ch.subrange(l, r + 1) =~= seq![ch[l]]);
        lemma_flat_one(ch[l]);
        assert(load(ch, l, r - 1) == 0);
    } else {
        lemma_joined(keys, ch, h, lo, hi, l, r - 1);
        assert(sorted_tree(ch[r], (h - 1) as nat, child_lo(keys, r, lo), child_hi(keys, r, hi)));
        assert(within(child_lo(keys, l, lo), keys[r - 1], child_hi(keys, r, hi))) by {
            if l > 0 {
                assert(bytes_le(keys[l - 1], keys[r - 1]));
            }
            if r < keys.len() {
                assert(bytes_le(keys[r - 1], keys[r]));
            }
            assert(within(lo, keys[r - 1], hi));
        }
        lemma_join(
            joined(keys, ch, l, r - 1),
            keys[r - 1],
            ch[r],
            (h - 1) as nat,
            child_lo(keys, l, lo),
            child_hi(keys, r, hi),
        );
        assert(ch.subrange(l, r + 1) =~= ch.subrange(l, r) + seq![ch[r]]);
        lemma_flat_concat(ch.subrange(l, r), seq![ch[r]]);
        lemma_flat_one(ch[r]);
    }
}

/// The lower bound of part `i`.
pub open spec fn part_lo(m: ByteTree, n: int, i: int, lo: Option<Seq<u8>>) -> Option<Seq<u8>> {
    if i == 0 {
        lo
    } else {
        Some(fence(m, n, i - 1))
    }
}

/// The upper bound of part `i`.
pub open spec fn part_hi(m: ByteTree, n: int, i: int, hi: Option<Seq<u8>>) -> Option<Seq<u8>> {
    if i == n - 1 {
        hi
    } else {
        Some(fence(m, n, i))
    }
}

proof fn lemma_part(
    m: ByteTree,
    n: int,
    i: int,
    h: nat,
    lo: Option<Seq<u8>>,
    hi: Option<Seq<u8>>,
)
    requires
        sorted_tree(m, h, lo, hi),
        1 <= n,
        can_deal(m, n),
        0 <= i < n,
    ensures
        sorted_tree(part(m, n, i), h, part_lo(m, n, i, lo), part_hi(m, n, i, hi)),
        part(m, n, i).count() == share(
            match m {
                Tree::Leaf(e) => e.len() as int,
                Tree::Internal(keys, _) => keys.len() - (n - 1),
            },
            n,
            i,
        ),
        i < n - 1 ==> within(lo, fence(m, n, i), hi),
{
    lemma_bytes_order();
    match m {
        Tree::Leaf(e) => {
            let t = e.len() as int;
            lemma_begin(t, n, i);
            lemma_begin(t, n, i + 1);
            if i < n - 1 {
                lemma_begin(t, n, i + 2);
            }
            let a = begin(t, n, i);
            let b = begin(t, n, i + 1);
            let p = e.subrange(a, b);
            assert forall|x: int| 0 <= x < p.len() implies within(
                part_lo(m, n, i, lo),
                (#[trigger] p[x]).0,
                part_hi(m, n, i, hi),
            ) by {
                assert(p[x] == e[a + x]);
                assert(within(lo, e[a + x].0, hi));
                if i > 0 && x > 0 {
                    assert(bytes_le(e[a].0, e[a + x].0));
                }
                if i < n - 1 {
                    assert(bytes_le(e[a + x].0, e[b].0));
                }
            }
            if i < n - 1 {
                assert(b < t);
                assert(within(lo, e[b].0, hi));
            }
        },
        Tree::Internal(keys, ch) => {
            let t = keys.len() - (n - 1);
            lemma_begin(t, n, i);
            lemma_begin(t, n, i + 1);
            let a = begin(t, n, i) + i;
            let b = begin(t, n, i + 1) + i;
            let k = keys.subrange(a, b);
            let c = ch.subrange(a, b + 1);
            if i < n - 1 {
                assert(b < keys.len());
                assert(within(lo, keys[b], hi));
            } else {
                assert(b == keys.len());
            }
            if i > 0 {
                assert(fence(m, n, i - 1) == keys[a - 1]);
            }
            let lo1 = part_lo(m, n, i, lo);
            let hi1 = part_hi(m, n, i, hi);
            assert forall|x: int| 0 <= x < k.len() implies within(lo1, #[trigger] k[x], hi1) by {
                assert(k[x] == keys[a + x]);
                assert(within(lo, keys[a + x], hi));
                if i > 0 {
                    assert(bytes_le(keys[a - 1], keys[a + x]));
                }
                if i < n - 1 {
                    assert(bytes_le(keys[a + x], keys[b]));
                }
            }
            assert(fences(k, lo1, hi1));
            assert forall|x: int| 0 <= x < c.len() implies sorted_tree(
                #[trigger] c[x],
                (h - 1) as nat,
                child_lo(k, x, lo1),
                child_hi(k, x, hi1),
            ) by {
                assert(c[x] == ch[a + x]);
                assert(sorted_tree(
                    ch[a + x],
                    (h - 1) as nat,
                    child_lo(keys, a + x, lo),
                    child_hi(keys, a + x, hi),
                ));
                assert(child_lo(k, x, lo1) == child_lo(keys, a + x, lo));
                assert(child_hi(k, x, hi1) == child_hi(keys, a + x, hi));
            }
        },
    }
}

proof fn lemma_parts_contents(
    m: ByteTree,
    n: int,
    i: int,
    h: nat,
    lo: Option<Seq<u8>>,
    hi: Option<Seq<u8>>,
)
    requires
        sorted_tree(m, h, lo, hi),
        1 <= n,
        can_deal(m, n),
        0 <= i <= n,
    ensures
        flat(parts(m, n).take(i)) == match m {
            Tree::Leaf(e) => e.take(begin(e.len() as int, n, i)),
            Tree::Internal(keys, ch) => {
                let x = begin(keys.len() - (n - 1), n, i) + i;
                flat(ch.take(x))
            },
        },
    decreases i,
{
    let ps = parts(m, n);
    let t = match m {
        Tree::Leaf(e) => e.len() as int,
        Tree::Internal(keys, _) => keys.len() - (n - 1),
    };
    lemma_begin(t, n, i);
    if i == 0 {
        assert(ps.take(0) =~= Seq::empty());
        match m {
            Tree::Leaf(e) => {
                assert(e.take(0) =~= Seq::empty());
            },
            Tree::Internal(keys, ch) => {
                assert(ch.take(0) =~= Seq::empty());
            },
        }
    } else {
        lemma_begin(t, n, i - 1);
        lemma_parts_contents(m, n, i - 1, h, lo, hi);
        assert(ps.take(i).drop_last() =~= ps.take(i - 1));
        assert(ps.take(i).last() == part(m, n, i - 1));
        assert(flat(ps.take(i)) == flat(ps.take(i - 1)) + part(m, n, i - 1).contents());
        match m {
            Tree::Leaf(e) => {
                assert(e.take(begin(t, n, i)) =~= e.take(begin(t, n, i - 1)) + e.subrange(
                    begin(t, n, i - 1),
                    begin(t, n, i),
                ));
            },
            Tree::Internal(keys, ch) => {
                let a = begin(t, n, i - 1) + i - 1;
                let b = begin(t, n, i) + i - 1;
                assert(ch.take(b + 1) =~= ch.take(a) + ch.subrange(a, b + 1));
                lemma_flat_concat(ch.take(a), ch.subrange(a, b + 1));
            },
        }
    }
}

proof fn lemma_dealt_fences(
    keys: Seq<Seq<u8>>,
    ch: Seq<ByteTree>,
    h: nat,
    lo: Option<Seq<u8>>,
    hi: Option<Seq<u8>>,
    l: int,
    r: int,
    n: int,
)
    requires
        sorted_tree(Tree::Internal(keys, ch), h, lo, hi),
        0 <= l <= r < ch.len(),
        1 <= n,
        can_deal(joined(keys, ch, l, r), n),
    ensures
        fences(keys.take(l) + part_fences(joined(keys, ch, l, r), n) + keys.skip(r), lo, hi),
{
    let m = joined(keys, ch, l, r);
    let lo1 = child_lo(keys, l, lo);
    let hi1 = child_hi(keys, r, hi);
    lemma_joined(keys, ch, h, lo, hi, l, r);
    let f = part_fences(m, n);
    let k2 = keys.take(l) + f + keys.skip(r);
    assert forall|i: int| 0 <= i < f.len() implies within(lo1, #[trigger] f[i], hi1) by {
        lemma_part(m, n, i, (h - 1) as nat, lo1, hi1);
    }
    assert forall|i: int, j: int| 0 <= i < j < f.len() implies bytes_le(
        #[trigger] f[i],
        #[trigger] f[j],
    ) by {
        lemma_fence_order(m, n, i, j, (h - 1) as nat, lo1, hi1);
    }
    assert forall|i: int| 0 <= i < k2.len() implies within(lo, #[trigger] k2[i], hi) by {
        lemma_bytes_order();
        if i < l {
            assert(k2[i] == keys[i]);
        } else if i < l + f.len() {
            assert(k2[i] == f[i - l]);
            if l > 0 {
                assert(within(lo, keys[l - 1], hi));
            }
            if r < keys.len() {
                assert(within(lo, keys[r], hi));
            }
        } else {
            assert(k2[i] == keys[i - l - f.len() + r]);
        }
    }
    assert forall|i: int, j: int| 0 <= i < j < k2.len() implies bytes_le(
        #[trigger] k2[i],
        #[trigger] k2[j],
    ) by {
        let b = l + f.len();
        if j < l {
            assert(k2[i] == keys[i] && k2[j] == keys[j]);
        } else if j < b {
            assert(k2[j] == f[j - l]);
            if i < l {
                assert(k2[i] == keys[i]);
                assert(i == l - 1 || bytes_le(keys[i], keys[l - 1]));
                assert(bytes_le(keys[l - 1], f[j - l]));
                lemma_bytes_order();
            } else {
                assert(k2[i] == f[i - l]);
            }
        } else {
            let y = j - b + r;
            assert(k2[j] == keys[y]);
            if i < l {
                assert(k2[i] == keys[i]);
                assert(bytes_le(keys[i], keys[y]));
            } else if i < b {
                assert(k2[i] == f[i - l]);
                assert(bytes_le(f[i - l], keys[r]));
                assert(r == y || bytes_le(keys[r], keys[y]));
                lemma_bytes_order();
            } else {
                let x = i - b + r;
                assert(k2[i] == keys[x]);
            }
        }
    }
}

proof fn lemma_dealt_contents(
    keys: Seq<Seq<u8>>,
    ch: Seq<ByteTree>,
    h: nat,
    lo: Option<Seq<u8>>,
    hi: Option<Seq<u8>>,
    l: int,
    r: int,
    n: int,
)
    requires
        sorted_tree(Tree::Internal(keys, ch), h, lo, hi),
        0 <= l <= r < ch.len(),
        1 <= n,
        can_deal(joined(keys, ch, l, r), n),
    ensures
        dealt(keys, ch, l, r, n).contents() == flat(ch),
{
    let m = joined(keys, ch, l, r);
    let ps = parts(m, n);
    let lo1 = child_lo(keys, l, lo);
    let hi1 = child_hi(keys, r, hi);
    lemma_joined(keys, ch, h, lo, hi, l, r);
    lemma_parts_contents(m, n, n, (h - 1) as nat, lo1, hi1);
    assert(ps.take(n) =~= ps);
    let t = match m {
        Tree::Leaf(e) => e.len() as int,
        Tree::Internal(keys, _) => keys.len() - (n - 1),
    };
    lemma_begin(t, n, n);
    match m {
        Tree::Leaf(e) => {
            assert(e.take(t) =~= e);
        },
        Tree::Internal(_, c) => {
            assert(c.take(t + n) =~= c);
        },
    }
    lemma_flat_concat(ch.take(l), ps);
    lemma_flat_concat(ch.take(l) + ps, ch.skip(r + 1));
    lemma_flat_concat(ch.take(l), ch.subrange(l, r + 1));
    lemma_flat_concat(ch.take(l) + ch.subrange(l, r + 1), ch.skip(r + 1));
    assert(ch =~= ch.take(l) + ch.subrange(l, r + 1) + ch.skip(r + 1));
}

/// Rebalancing neighbours keeps the order, the bounds and the entries.
pub proof fn lemma_dealt(
    keys: Seq<Seq<u8>>,
    ch: Seq<ByteTree>,
    h: nat,
    lo: Option<Seq<u8>>,
    hi: Option<Seq<u8>>,
    l: int,
    r: int,
    n: int,
)
    requires
        sorted_tree(Tree::Internal(keys, ch), h, lo, hi),
        0 <= l <= r < ch.len(),
        1 <= n,
        can_deal(joined(keys, ch, l, r), n),
    ensures
        sorted_tree(dealt(keys, ch, l, r, n), h, lo, hi),
        dealt(keys, ch, l, r, n).contents() == flat(ch),
        dealt(keys, ch, l, r, n).count() == keys.len() - (r - l + 1) + n,
{
    let m = joined(keys, ch, l, r);
    let lo1 = child_lo(keys, l, lo);
    let hi1 = child_hi(keys, r, hi);
    lemma_joined(keys, ch, h, lo, hi, l, r);
    let ps = parts(m, n);
    let f = part_fences(m, n);
    let k2 = keys.take(l) + f + keys.skip(r);
    let c2 = ch.take(l) + ps + ch.skip(r + 1);
    assert forall|i: int| 0 <= i < n implies sorted_tree(
        #[trigger] part(m, n, i),
        (h - 1) as nat,
        part_lo(m, n, i, lo1),
        part_hi(m, n, i, hi1),
    ) && (i < n - 1 ==> within(lo1, fence(m, n, i), hi1)) by {
        lemma_part(m, n, i, (h - 1) as nat, lo1, hi1);
    }
    lemma_dealt_fences(keys, ch, h, lo, hi, l, r, n);
    lemma_dealt_contents(keys, ch, h, lo, hi, l, r, n);
    assert forall|i: int| 0 <= i < c2.len() implies sorted_tree(
        #[trigger] c2[i],
        (h - 1) as nat,
        child_lo(k2, i, lo),
        child_hi(k2, i, hi),
    ) by {
        if i < l {
            assert(c2[i] == ch[i]);
            assert(sorted_tree(ch[i], (h - 1) as nat, child_lo(keys, i, lo), child_hi(keys, i, hi)));
            assert(k2[i] == keys[i]);
            if i > 0 {
                assert(k2[i - 1] == keys[i - 1]);
            }
        } else if i < l + n {
            let j = i - l;
            assert(c2[i] == part(m, n, j));
            assert(child_lo(k2, i, lo) == part_lo(m, n, j, lo1)) by {
                if j > 0 {
                    assert(k2[i - 1] == f[j - 1]);
                } else if l > 0 {
                    assert(k2[l - 1] == keys[l - 1]);
                }
            }
            assert(child_hi(k2, i, hi) == part_hi(m, n, j, hi1)) by {
                if j < n - 1 {
                    assert(k2[i] == f[j]);
                } else if r < keys.len() {
                    assert(k2[i] == keys[r]);
                }
            }
        } else {
            let x = i - l - n + r + 1;
            assert(c2[i] == ch[x]);
            assert(sorted_tree(ch[x], (h - 1) as nat, child_lo(keys, x, lo), child_hi(keys, x, hi)));
            assert(k2[i - 1] == keys[x - 1]);
            if x < keys.len() {
                assert(k2[i] == keys[x]);
            }
        }
    }
}

proof fn lemma_fence_order(
    m: ByteTree,
    n: int,
    i: int,
    j: int,
    h: nat,
    lo: Option<Seq<u8>>,
    hi: Option<Seq<u8>>,
)
    requires
        sorted_tree(m, h, lo, hi),
        1 <= n,
        can_deal(m, n),
        0 <= i < j < n - 1,
    ensures
        bytes_le(fence(m, n, i), fence(m, n, j)),
    decreases j - i,
{
    lemma_bytes_order();
    let t = match m {
        Tree::Leaf(e) => e.len() as int,
        Tree::Internal(keys, _) => keys.len() - (n - 1),
    };
    lemma_begin(t, n, j);
    lemma_begin(t, n, j + 1);
    lemma_begin(t, n, j + 2);
    lemma_begin(t, n, i + 1);
    if i + 1 < j {
        lemma_fence_order(m, n, i, j - 1, h, lo, hi);
    }
    match m {
        Tree::Leaf(e) => {
            let x = begin(t, n, j);
            let y = begin(t, n, j + 1);
            assert(bytes_le(e[x].0, e[y].0));
        },
        Tree::Internal(keys, _) => {
            let x = begin(t, n, j) + j - 1;
            let y = begin(t, n, j + 1) + j;
            assert(bytes_le(keys[x], keys[y]));
        },
    }
}

// Changing -----------------------------------------------------------------------------

/// `e` with `v` under `k`, or without `k` where there is no value.
pub open spec fn changed(e: Seq<Entry>, k: Seq<u8>, v: Option<Seq<u8>>) -> Seq<Entry> {
    match v {
        Some(v) => put(e, k, v),
        None => del(e, k),
    }
}

/// A child with a count of `c` is rebalanced with its neighbours before the way down goes on:
/// where an entry is to be added if it is full, and where one is to be taken if it could get
/// too small.
pub open spec fn tense(c: int, t: int, adds: bool) -> bool {
    if adds {
        c == 2 * t - 1
    } else {
        c <= t - 1
    }
}

/// The node after the child on the way to `k` was made ready.
pub open spec fn readied(
    keys: Seq<Seq<u8>>,
    ch: Seq<ByteTree>,
    k: Seq<u8>,
    t: int,
    adds: bool,
) -> ByteTree {
    let ci = left_route(keys, k) as int;
    if tense(ch[ci].count() as int, t, adds) {
        rebalanced(keys, ch, ci, t, 2 * t - 1)
    } else {
        Tree::Internal(keys, ch)
    }
}

/// The child that the way to `k` takes.
pub open spec fn next_child(
    keys: Seq<Seq<u8>>,
    ch: Seq<ByteTree>,
    k: Seq<u8>,
    t: int,
    adds: bool,
) -> int {
    let ci = left_route(keys, k) as int;
    if tense(ch[ci].count() as int, t, adds) {
        match rebalanced(keys, ch, ci, t, 2 * t - 1) {
            Tree::Leaf(_) => 0,
            Tree::Internal(k2, _) => right_route(k2, k) as int,
        }
    } else {
        ci
    }
}

/// The tree with `v` put under `k`, or with `k` deleted where there is no value.
pub open spec fn edit(m: ByteTree, h: nat, k: Seq<u8>, v: Option<Seq<u8>>, t: int) -> ByteTree
    decreases h,
{
    match m {
        Tree::Leaf(e) => Tree::Leaf(changed(e, k, v)),
        Tree::Internal(keys, ch) => match readied(keys, ch, k, t, v is Some) {
            Tree::Leaf(_) => m,
            Tree::Internal(k2, c2) => {
                let ci = next_child(keys, ch, k, t, v is Some);
                if h == 0 {
                    m
                } else {
                    Tree::Internal(k2, c2.update(ci, edit(c2[ci], (h - 1) as nat, k, v, t)))
                }
            },
        },
    }
}

/// A node with no page numbers for its children.
pub open spec fn page_view(m: ByteTree) -> NodeView {
    match m {
        Tree::Leaf(e) => NodeView::Leaf(e, None),
        Tree::Internal(keys, _) => NodeView::Internal(keys, Seq::new(keys.len() + 1, |i: int| 0u64)),
    }
}

/// The node fits on a page.
pub open spec fn roomy(m: ByteTree) -> bool {
    page_view(m).fits()
}

/// The cells of the node fit on a page.
pub open spec fn packed(m: ByteTree) -> bool {
    page_view(m).packs()
}

/// The cells of the node fit on a page beside its head.
pub open spec fn headed(m: ByteTree) -> bool {
    page_view(m).headed()
}

/// All nodes of the tree fit on their pages.
pub open spec fn neat(m: ByteTree) -> bool
    decreases m,
{
    &&& roomy(m)
    &&& m matches Tree::Internal(_, ch) ==> forall|i: int| 0 <= i < ch.len() ==> neat(#[trigger] ch[i])
}

/// The nodes that a change under `k` reads fit on their pages: the node itself, the child that the
/// way takes, and its neighbours where it is rebalanced with them.
pub open spec fn open_way(m: ByteTree, k: Seq<u8>, t: int, adds: bool) -> bool {
    &&& roomy(m)
    &&& m matches Tree::Internal(keys, ch) ==> {
        let ci = left_route(keys, k) as int;
        &&& neat(ch[ci])
        &&& tense(ch[ci].count() as int, t, adds) ==> forall|i: int|
            0 <= i < ch.len() ==> neat(#[trigger] ch[i])
    }
}

/// The parts that a node is dealt out to can be written: their cells fit on their pages, and the
/// leaves whose first keys are read back fit altogether.
pub open spec fn parts_go(m: ByteTree, n: int) -> bool {
    forall|i: int|
        0 <= i < n ==> packed(#[trigger] part(m, n, i)) && (m is Leaf && i > 0 ==> roomy(part(m, n, i)))
}

/// The window around child `ci` can be rebalanced on the way to `k`: the cells of all that is
/// written fit on their pages, and what is read again fits altogether.
pub open spec fn can_ready(keys: Seq<Seq<u8>>, ch: Seq<ByteTree>, ci: int, k: Seq<u8>, t: int) -> bool {
    let l = window_left(ci);
    let r = window_right(ci, ch.len() as int);
    let n = window_target(ch, ci, t, 2 * t - 1);
    &&& can_rebalance(keys, ch, ci, t, 2 * t - 1)
    &&& packed(rebalanced(keys, ch, ci, t, 2 * t - 1))
    &&& parts_go(joined(keys, ch, l, r), n)
    &&& rebalanced(keys, ch, ci, t, 2 * t - 1) matches Tree::Internal(k2, c2) && roomy(
        c2[right_route(k2, k) as int],
    )
}

/// The kids of neighbours that are neat are neat.
proof fn lemma_joined_neat(keys: Seq<Seq<u8>>, ch: Seq<ByteTree>, l: int, r: int)
    requires
        0 <= l <= r < ch.len(),
        forall|i: int| l <= i <= r ==> neat(#[trigger] ch[i]),
        forall|i: int| l <= i <= r ==> ((#[trigger] ch[i]) is Leaf) == (ch[l] is Leaf),
    ensures
        (joined(keys, ch, l, r) is Leaf) == (ch[l] is Leaf),
        joined(keys, ch, l, r) matches Tree::Internal(_, c) ==> forall|i: int|
            0 <= i < c.len() ==> neat(#[trigger] c[i]),
    decreases r - l,
{
    assert(neat(ch[l]));
    if l < r {
        lemma_joined_neat(keys, ch, l, r - 1);
        assert(neat(ch[r]));
        assert((ch[r] is Leaf) == (ch[l] is Leaf));
    }
}

/// A part of neighbours that are neat is neat if it fits on its page.
pub proof fn lemma_part_neat(keys: Seq<Seq<u8>>, ch: Seq<ByteTree>, l: int, r: int, n: int, i: int)
    requires
        0 <= l <= r < ch.len(),
        forall|i: int| l <= i <= r ==> neat(#[trigger] ch[i]),
        forall|i: int| l <= i <= r ==> ((#[trigger] ch[i]) is Leaf) == (ch[l] is Leaf),
        1 <= n,
        can_deal(joined(keys, ch, l, r), n),
        joined(keys, ch, l, r) matches Tree::Internal(k, c) ==> c.len() == k.len() + 1,
        0 <= i < n,
        roomy(part(joined(keys, ch, l, r), n, i)),
    ensures
        neat(part(joined(keys, ch, l, r), n, i)),
{
    lemma_joined_neat(keys, ch, l, r);
    if let Tree::Internal(k, c) = joined(keys, ch, l, r) {
        let t = k.len() - (n - 1);
        lemma_begin(t, n, i);
        lemma_begin(t, n, i + 1);
        let a = begin(t, n, i) + i;
        let b = begin(t, n, i + 1) + i;
        let d = c.subrange(a, b + 1);
        assert forall|j: int| 0 <= j < d.len() implies neat(#[trigger] d[j]) by {
            assert(d[j] == c[a + j]);
        }
    }
}

/// The change can be made: no leaf is left without entries where one is needed, every page that
/// is written on the way has room for the cells of its node, and those that are read again have
/// room for their slots too.
pub open spec fn can_edit(m: ByteTree, h: nat, k: Seq<u8>, v: Option<Seq<u8>>, t: int) -> bool
    decreases h,
{
    match m {
        Tree::Leaf(e) => v is Some ==> packed(Tree::Leaf(changed(e, k, v))),
        Tree::Internal(keys, ch) => {
            let ci = left_route(keys, k) as int;
            &&& tense(ch[ci].count() as int, t, v is Some) ==> can_ready(keys, ch, ci, k, t)
            &&& match readied(keys, ch, k, t, v is Some) {
                Tree::Leaf(_) => false,
                Tree::Internal(_, c2) => h > 0 && can_edit(
                    c2[next_child(keys, ch, k, t, v is Some)],
                    (h - 1) as nat,
                    k,
                    v,
                    t,
                ),
            }
        },
    }
}

/// How many pages are taken and given back when `w` nodes make way for `n`.
pub open spec fn dealt_pages(w: int, n: int) -> (nat, nat) {
    (
        if n > w {
            1
        } else {
            0
        },
        if n < w {
            1
        } else {
            0
        },
    )
}

/// How many pages are taken and given back when the window around child `ci` is rebalanced.
pub open spec fn window_pages_moved(ch: Seq<ByteTree>, ci: int, t: int) -> (nat, nat) {
    dealt_pages(
        window_right(ci, ch.len() as int) - window_left(ci) + 1,
        window_target(ch, ci, t, 2 * t - 1),
    )
}

/// How many pages a change takes and how many it gives back.
pub open spec fn edit_pages(m: ByteTree, h: nat, k: Seq<u8>, v: Option<Seq<u8>>, t: int) -> (nat, nat)
    decreases h,
{
    match m {
        Tree::Leaf(_) => (0, 0),
        Tree::Internal(keys, ch) => {
            let ci = left_route(keys, k) as int;
            let here = if tense(ch[ci].count() as int, t, v is Some) {
                window_pages_moved(ch, ci, t)
            } else {
                (0nat, 0nat)
            };
            match readied(keys, ch, k, t, v is Some) {
                Tree::Leaf(_) => here,
                Tree::Internal(_, c2) => if h == 0 {
                    here
                } else {
                    let below = edit_pages(
                        c2[next_child(keys, ch, k, t, v is Some)],
                        (h - 1) as nat,
                        k,
                        v,
                        t,
                    );
                    (here.0 + below.0, here.1 + below.1)
                },
            }
        },
    }
}

/// The first thing in the way of the change is a leaf without entries where one is needed.
pub open spec fn starved(m: ByteTree, h: nat, k: Seq<u8>, v: Option<Seq<u8>>, t: int) -> bool
    decreases h,
{
    match m {
        Tree::Leaf(_) => false,
        Tree::Internal(keys, ch) => {
            let ci = left_route(keys, k) as int;
            let is_tense = tense(ch[ci].count() as int, t, v is Some);
            if is_tense && !can_rebalance(keys, ch, ci, t, 2 * t - 1) {
                true
            } else {
                &&& is_tense ==> can_ready(keys, ch, ci, k, t)
                &&& match readied(keys, ch, k, t, v is Some) {
                    Tree::Leaf(_) => false,
                    Tree::Internal(_, c2) => h > 0 && starved(
                        c2[next_child(keys, ch, k, t, v is Some)],
                        (h - 1) as nat,
                        k,
                        v,
                        t,
                    ),
                }
            }
        },
    }
}

/// A change that can be made runs into no leaf without entries.
pub proof fn lemma_not_starved(m: ByteTree, h: nat, k: Seq<u8>, v: Option<Seq<u8>>, t: int)
    requires
        can_edit(m, h, k, v, t),
    ensures
        !starved(m, h, k, v, t),
    decreases h,
{
    if let Tree::Internal(keys, ch) = m {
        if let Tree::Internal(_, c2) = readied(keys, ch, k, t, v is Some) {
            if h > 0 {
                lemma_not_starved(
                    c2[next_child(keys, ch, k, t, v is Some)],
                    (h - 1) as nat,
                    k,
                    v,
                    t,
                );
            }
        }
    }
}

/// `new` is `old` with one entry for `k` changed: its value is `v`, or it was added; or it
/// was taken out.
pub open spec fn edited(
    old_e: Seq<Entry>,
    new_e: Seq<Entry>,
    k: Seq<u8>,
    v: Option<Seq<u8>>,
) -> bool {
    match v {
        Some(v) => {
            ||| exists|i: int| 0 <= i <= old_e.len() && new_e == #[trigger] old_e.insert(i, (k, v))
            ||| exists|i: int|
                0 <= i < old_e.len() && old_e[i].0 == k && new_e == #[trigger] old_e.update(i, (k, v))
        },
        None => {
            ||| new_e == old_e
            ||| exists|i: int| 0 <= i < old_e.len() && old_e[i].0 == k && new_e == #[trigger] old_e.remove(i)
        },
    }
}

/// A change in the middle is a change of the whole.
proof fn lemma_edited_middle(
    a: Seq<Entry>,
    b: Seq<Entry>,
    b2: Seq<Entry>,
    c: Seq<Entry>,
    k: Seq<u8>,
    v: Option<Seq<u8>>,
)
    requires
        edited(b, b2, k, v),
    ensures
        edited(a + b + c, a + b2 + c, k, v),
{
    let x = a + b + c;
    let y = a + b2 + c;
    match v {
        Some(w) => {
            if exists|i: int| 0 <= i <= b.len() && b2 == #[trigger] b.insert(i, (k, w)) {
                let i = choose|i: int| 0 <= i <= b.len() && b2 == #[trigger] b.insert(i, (k, w));
                assert(y =~= x.insert(a.len() + i, (k, w)));
            } else {
                let i = choose|i: int|
                    0 <= i < b.len() && b[i].0 == k && b2 == #[trigger] b.update(i, (k, w));
                assert(x[a.len() + i] == b[i]);
                assert(y =~= x.update(a.len() + i, (k, w)));
            }
        },
        None => {
            if b2 != b {
                let i = choose|i: int|
                    0 <= i < b.len() && b[i].0 == k && b2 == #[trigger] b.remove(i);
                assert(x[a.len() + i] == b[i]);
                assert(y =~= x.remove(a.len() + i));
            }
        },
    }
}

proof fn lemma_changed(e: Seq<Entry>, k: Seq<u8>, v: Option<Seq<u8>>)
    ensures
        edited(e, changed(e, k, v), k, v),
{
    lemma_place(e, k);
    let r = place(e, k) as int;
    match v {
        Some(w) => {
            if found(e, k) {
                assert(changed(e, k, v) == e.update(r, (k, w)));
            } else {
                assert(changed(e, k, v) == e.insert(r, (k, w)));
            }
        },
        None => {
            if found(e, k) {
                assert(changed(e, k, v) == e.remove(r));
            }
        },
    }
}

/// A node that is made ready for a change keeps its order, its bounds and its entries, and the
/// way down goes to a child whose bounds hold `k`.
pub proof fn lemma_readied(
    keys: Seq<Seq<u8>>,
    ch: Seq<ByteTree>,
    h: nat,
    lo: Option<Seq<u8>>,
    hi: Option<Seq<u8>>,
    k: Seq<u8>,
    t: int,
    adds: bool,
)
    requires
        sorted_tree(Tree::Internal(keys, ch), h, lo, hi),
        within(lo, k, hi),
        t >= 2,
        tense(ch[left_route(keys, k) as int].count() as int, t, adds) ==> can_rebalance(
            keys,
            ch,
            left_route(keys, k) as int,
            t,
            2 * t - 1,
        ),
    ensures
        left_route(keys, k) < ch.len(),
        readied(keys, ch, k, t, adds) is Internal,
        sorted_tree(readied(keys, ch, k, t, adds), h, lo, hi),
        readied(keys, ch, k, t, adds).contents() == flat(ch),
        readied(keys, ch, k, t, adds) matches Tree::Internal(k2, c2) && {
            let ci = next_child(keys, ch, k, t, adds);
            &&& 0 <= ci < c2.len()
            &&& within(child_lo(k2, ci, lo), k, child_hi(k2, ci, hi))
            &&& sorted_tree(
                c2[ci],
                (h - 1) as nat,
                child_lo(k2, ci, lo),
                child_hi(k2, ci, hi),
            )
        },
{
    let ci = left_route(keys, k) as int;
    lemma_left_route(keys, k);
    if tense(ch[ci].count() as int, t, adds) {
        let l = window_left(ci);
        let r = window_right(ci, ch.len() as int);
        let n = window_target(ch, ci, t, 2 * t - 1);
        lemma_dealt(keys, ch, h, lo, hi, l, r, n);
        if let Tree::Internal(k2, c2) = rebalanced(keys, ch, ci, t, 2 * t - 1) {
            lemma_right_route(k2, k);
            lemma_bytes_order();
            let cj = right_route(k2, k) as int;
            assert(sorted_tree(c2[cj], (h - 1) as nat, child_lo(k2, cj, lo), child_hi(k2, cj, hi)));
        }
    } else {
        lemma_bytes_order();
        assert(sorted_tree(ch[ci], (h - 1) as nat, child_lo(keys, ci, lo), child_hi(keys, ci, hi)));
    }
}

/// A child that is replaced by one within the same bounds.
pub proof fn lemma_replaced(
    keys: Seq<Seq<u8>>,
    ch: Seq<ByteTree>,
    h: nat,
    lo: Option<Seq<u8>>,
    hi: Option<Seq<u8>>,
    ci: int,
    c: ByteTree,
)
    requires
        sorted_tree(Tree::Internal(keys, ch), h, lo, hi),
        0 <= ci < ch.len(),
        sorted_tree(c, (h - 1) as nat, child_lo(keys, ci, lo), child_hi(keys, ci, hi)),
    ensures
        sorted_tree(Tree::Internal(keys, ch.update(ci, c)), h, lo, hi),
        flat(ch) == flat(ch.take(ci)) + ch[ci].contents() + flat(ch.skip(ci + 1)),
        flat(ch.update(ci, c)) == flat(ch.take(ci)) + c.contents() + flat(ch.skip(ci + 1)),
{
    let d = ch.update(ci, c);
    lemma_flat_at(ch, ci);
    lemma_flat_at(d, ci);
    assert(d.take(ci) =~= ch.take(ci));
    assert(d.skip(ci + 1) =~= ch.skip(ci + 1));
    assert forall|i: int| 0 <= i < d.len() implies sorted_tree(
        #[trigger] d[i],
        (h - 1) as nat,
        child_lo(keys, i, lo),
        child_hi(keys, i, hi),
    ) by {
        if i != ci {
            assert(d[i] == ch[i]);
        }
    }
}

/// A change keeps the order and the bounds, and changes at most one entry, one for its key.
pub proof fn lemma_edit(
    m: ByteTree,
    h: nat,
    lo: Option<Seq<u8>>,
    hi: Option<Seq<u8>>,
    k: Seq<u8>,
    v: Option<Seq<u8>>,
    t: int,
)
    requires
        sorted_tree(m, h, lo, hi),
        within(lo, k, hi),
        t >= 2,
        can_edit(m, h, k, v, t),
    ensures
        sorted_tree(edit(m, h, k, v, t), h, lo, hi),
        edited(m.contents(), edit(m, h, k, v, t).contents(), k, v),
    decreases h,
{
    match m {
        Tree::Leaf(e) => {
            lemma_leaf_change(e, lo, hi, k, match v {
                Some(w) => w,
                None => Seq::empty(),
            });
            lemma_changed(e, k, v);
        },
        Tree::Internal(keys, ch) => {
            lemma_readied(keys, ch, h, lo, hi, k, t, v is Some);
            if let Tree::Internal(k2, c2) = readied(keys, ch, k, t, v is Some) {
                let ci = next_child(keys, ch, k, t, v is Some);
                let lo1 = child_lo(k2, ci, lo);
                let hi1 = child_hi(k2, ci, hi);
                lemma_edit(c2[ci], (h - 1) as nat, lo1, hi1, k, v, t);
                let c = edit(c2[ci], (h - 1) as nat, k, v, t);
                lemma_replaced(k2, c2, h, lo, hi, ci, c);
                lemma_edited_middle(
                    flat(c2.take(ci)),
                    c2[ci].contents(),
                    c.contents(),
                    flat(c2.skip(ci + 1)),
                    k,
                    v,
                );
            }
        },
    }
}

// Looking up ---------------------------------------------------------------------------

/// The entries of the leaf that the way down to `k` ends at.
pub open spec fn seek(m: ByteTree, h: nat, k: Seq<u8>) -> Seq<Entry>
    decreases h,
{
    match m {
        Tree::Leaf(e) => e,
        Tree::Internal(keys, ch) => if h == 0 {
            Seq::empty()
        } else {
            seek(ch[left_route(keys, k) as int], (h - 1) as nat, k)
        },
    }
}

/// Where a lookup of `k` among the entries `l` to `r` ends, each step halving what is left.
pub open spec fn halved(e: Seq<Entry>, k: Seq<u8>, l: int, r: int) -> Result<int, int>
    decreases r - l,
{
    if l >= r {
        Err(l)
    } else {
        let mid = l + (r - l) / 2;
        match rank_of(e[mid].0, k) {
            Rank::Below => halved(e, k, mid + 1, r),
            Rank::Same => Ok(mid),
            Rank::Above => halved(e, k, l, mid),
        }
    }
}

/// `v` is what a lookup of `k` in a leaf finds. Where the key occurs once this is its value;
/// where it occurs more often halving decides which value it is.
pub open spec fn looked_up(e: Seq<Entry>, k: Seq<u8>, v: Option<Seq<u8>>) -> bool {
    v == match halved(e, k, 0, e.len() as int) {
        Ok(i) => Some(e[i].1),
        Err(_) => None,
    }
}

proof fn lemma_halved(e: Seq<Entry>, k: Seq<u8>, l: int, r: int)
    requires
        rising(e),
        0 <= l <= r <= e.len(),
        l > 0 ==> bytes_lt(e[l - 1].0, k),
        r < e.len() ==> bytes_lt(k, e[r].0),
    ensures
        match halved(e, k, l, r) {
            Ok(i) => 0 <= i < e.len() && e[i].0 == k,
            Err(_) => !found(e, k),
        },
    decreases r - l,
{
    lemma_bytes_order();
    lemma_place(e, k);
    if l < r {
        let mid = l + (r - l) / 2;
        match rank_of(e[mid].0, k) {
            Rank::Below => {
                lemma_halved(e, k, mid + 1, r);
            },
            Rank::Same => {},
            Rank::Above => {
                lemma_halved(e, k, l, mid);
            },
        }
    } else if found(e, k) {
        let p = place(e, k) as int;
        if p < l {
            assert(bytes_le(e[p].0, e[l - 1].0));
        } else {
            assert(bytes_le(e[r].0, e[p].0));
        }
    }
}

/// In a leaf whose keys do not fall a lookup finds a value of its key, if there is one.
pub proof fn lemma_looked_up(e: Seq<Entry>, k: Seq<u8>, v: Option<Seq<u8>>)
    requires
        rising(e),
        looked_up(e, k, v),
    ensures
        match v {
            Some(v) => exists|i: int| 0 <= i < e.len() && #[trigger] e[i] == (k, v),
            None => !found(e, k),
        },
{
    lemma_halved(e, k, 0, e.len() as int);
    if let Ok(i) = halved(e, k, 0, e.len() as int) {
        assert(e[i] == (k, e[i].1));
    }
}

/// No separator equals `k`.
pub open spec fn clear(m: ByteTree, k: Seq<u8>) -> bool
    decreases m,
{
    m matches Tree::Internal(keys, ch) ==> {
        &&& forall|i: int| 0 <= i < keys.len() ==> #[trigger] keys[i] != k
        &&& forall|i: int| 0 <= i < ch.len() ==> clear(#[trigger] ch[i], k)
    }
}

/// The entries of a search tree do not fall and lie within its bounds.
pub proof fn lemma_contents(m: ByteTree, h: nat, lo: Option<Seq<u8>>, hi: Option<Seq<u8>>)
    requires
        sorted_tree(m, h, lo, hi),
    ensures
        rising(m.contents()),
        forall|i: int| 0 <= i < m.contents().len() ==> within(lo, (#[trigger] m.contents()[i]).0, hi),
    decreases h,
{
    if let Tree::Internal(keys, ch) = m {
        let r = ch.len() - 1;
        lemma_joined(keys, ch, h, lo, hi, 0, r);
        assert(ch.subrange(0, r + 1) =~= ch);
        lemma_contents(joined(keys, ch, 0, r), (h - 1) as nat, lo, hi);
    }
}

/// The entries to the left of a child are not above the separator there, those to its right
/// not below the one there.
pub proof fn lemma_sides(
    keys: Seq<Seq<u8>>,
    ch: Seq<ByteTree>,
    h: nat,
    lo: Option<Seq<u8>>,
    hi: Option<Seq<u8>>,
    ci: int,
)
    requires
        sorted_tree(Tree::Internal(keys, ch), h, lo, hi),
        0 <= ci < ch.len(),
    ensures
        forall|i: int|
            0 <= i < flat(ch.take(ci)).len() ==> ci > 0 && bytes_le(
                (#[trigger] flat(ch.take(ci))[i]).0,
                keys[ci - 1],
            ),
        forall|i: int|
            0 <= i < flat(ch.skip(ci + 1)).len() ==> ci < keys.len() && bytes_le(
                keys[ci],
                (#[trigger] flat(ch.skip(ci + 1))[i]).0,
            ),
{
    if ci > 0 {
        lemma_joined(keys, ch, h, lo, hi, 0, ci - 1);
        assert(ch.subrange(0, ci) =~= ch.take(ci));
        lemma_contents(joined(keys, ch, 0, ci - 1), (h - 1) as nat, lo, child_hi(keys, ci - 1, hi));
    } else {
        assert(ch.take(0) =~= Seq::empty());
    }
    if ci + 1 < ch.len() {
        let r = ch.len() - 1;
        lemma_joined(keys, ch, h, lo, hi, ci + 1, r);
        assert(ch.subrange(ci + 1, r + 1) =~= ch.skip(ci + 1));
        lemma_contents(joined(keys, ch, ci + 1, r), (h - 1) as nat, child_lo(keys, ci + 1, lo), hi);
    } else {
        assert(ch.skip(ci + 1) =~= Seq::empty());
    }
}

/// Between lower and higher entries, those in the middle decide.
pub proof fn lemma_middle(
    a: Seq<Entry>,
    b: Seq<Entry>,
    c: Seq<Entry>,
    k: Seq<u8>,
    v: Option<Seq<u8>>,
)
    requires
        forall|i: int| 0 <= i < a.len() ==> bytes_lt((#[trigger] a[i]).0, k),
        forall|i: int| 0 <= i < c.len() ==> bytes_lt(k, (#[trigger] c[i]).0),
    ensures
        get(a + b + c, k) == get(b, k),
        changed(a + b + c, k, v) == a + changed(b, k, v) + c,
{
    let e = a + b + c;
    let r = place(b, k) as int;
    lemma_place_middle(a, b, c, k);
    lemma_place(b, k);
    assert(found(e, k) == found(b, k)) by {
        if r < b.len() {
            assert(e[a.len() + r] == b[r]);
        } else if c.len() > 0 {
            assert(e[a.len() + r] == c[0]);
            lemma_irreflexive(k);
        }
    }
    if let Some(w) = v {
        if found(b, k) {
            assert(e.update(a.len() + r, (k, w)) =~= a + b.update(r, (k, w)) + c);
        } else {
            assert(e.insert(a.len() + r, (k, w)) =~= a + b.insert(r, (k, w)) + c);
        }
    } else if found(b, k) {
        assert(e.remove(a.len() + r) =~= a + b.remove(r) + c);
    }
}

proof fn lemma_front(b: Seq<Entry>, c: Seq<Entry>, k: Seq<u8>)
    requires
        forall|i: int| 0 <= i < c.len() ==> bytes_lt(k, (#[trigger] c[i]).0),
    ensures
        place(b + c, k) == place(b, k),
        found(b + c, k) == found(b, k),
    decreases b.len(),
{
    lemma_bytes_order();
    if b.len() == 0 {
        assert(b + c =~= c);
        if c.len() > 0 {
            assert(bytes_lt(k, c[0].0));
        }
    } else {
        assert((b + c)[0] == b[0]);
        assert((b + c).drop_first() =~= b.drop_first() + c);
        lemma_front(b.drop_first(), c, k);
        lemma_place(b.drop_first(), k);
    }
}

/// A lookup finds what the tree has under its key, where no separator equals the key.
pub proof fn lemma_seek(m: ByteTree, h: nat, lo: Option<Seq<u8>>, hi: Option<Seq<u8>>, k: Seq<u8>)
    requires
        sorted_tree(m, h, lo, hi),
        clear(m, k),
    ensures
        get(seek(m, h, k), k) == get(m.contents(), k),
    decreases h,
{
    if let Tree::Internal(keys, ch) = m {
        let ci = left_route(keys, k) as int;
        lemma_left_route(keys, k);
        lemma_bytes_order();
        assert(sorted_tree(ch[ci], (h - 1) as nat, child_lo(keys, ci, lo), child_hi(keys, ci, hi)));
        assert(clear(ch[ci], k));
        lemma_seek(ch[ci], (h - 1) as nat, child_lo(keys, ci, lo), child_hi(keys, ci, hi), k);
        lemma_sides(keys, ch, h, lo, hi, ci);
        lemma_flat_at(ch, ci);
        let a = flat(ch.take(ci));
        let c = flat(ch.skip(ci + 1));
        if ci < keys.len() {
            assert(keys[ci] != k);
            assert(bytes_lt(k, keys[ci]));
        }
        lemma_middle(a, ch[ci].contents(), c, k, None);
    }
}

pub proof fn lemma_clear_joined(
    keys: Seq<Seq<u8>>,
    ch: Seq<ByteTree>,
    h: nat,
    lo: Option<Seq<u8>>,
    hi: Option<Seq<u8>>,
    l: int,
    r: int,
    k: Seq<u8>,
)
    requires
        sorted_tree(Tree::Internal(keys, ch), h, lo, hi),
        0 <= l <= r < ch.len(),
        clear(Tree::Internal(keys, ch), k),
    ensures
        clear(joined(keys, ch, l, r), k),
    decreases r - l,
{
    assert(clear(ch[r], k));
    if l < r {
        lemma_clear_joined(keys, ch, h, lo, hi, l, r - 1, k);
        lemma_joined(keys, ch, h, lo, hi, l, r - 1);
        assert(sorted_tree(ch[r], (h - 1) as nat, child_lo(keys, r, lo), child_hi(keys, r, hi)));
        let a = joined(keys, ch, l, r - 1);
        match (a, ch[r]) {
            (Tree::Internal(k1, c1), Tree::Internal(k2, c2)) => {
                let kk = k1.push(keys[r - 1]) + k2;
                let cc = c1 + c2;
                assert forall|i: int| 0 <= i < kk.len() implies #[trigger] kk[i] != k by {
                    if i < k1.len() {
                        assert(kk[i] == k1[i]);
                    } else if i == k1.len() {
                        assert(kk[i] == keys[r - 1]);
                    } else {
                        assert(kk[i] == k2[i - k1.len() - 1]);
                    }
                }
                assert forall|i: int| 0 <= i < cc.len() implies clear(#[trigger] cc[i], k) by {
                    if i < c1.len() {
                        assert(cc[i] == c1[i]);
                    } else {
                        assert(cc[i] == c2[i - c1.len()]);
                    }
                }
            },
            _ => {},
        }
    }
}

/// The parts of a node without the separator `k` are without it, and so are the separators
/// between them, unless `k` is a key of an entry.
pub proof fn lemma_clear_part(
    m: ByteTree,
    n: int,
    i: int,
    h: nat,
    lo: Option<Seq<u8>>,
    hi: Option<Seq<u8>>,
    k: Seq<u8>,
)
    requires
        sorted_tree(m, h, lo, hi),
        1 <= n,
        can_deal(m, n),
        0 <= i < n,
        clear(m, k),
    ensures
        clear(part(m, n, i), k),
        i < n - 1 && fence(m, n, i) == k ==> h == 0 && part(m, n, i + 1).contents().len() > 0 && part(
            m,
            n,
            i + 1,
        ).contents()[0].0 == k,
{
    let t = match m {
        Tree::Leaf(e) => e.len() as int,
        Tree::Internal(keys, _) => keys.len() - (n - 1),
    };
    lemma_begin(t, n, i);
    lemma_begin(t, n, i + 1);
    if i < n - 1 {
        lemma_begin(t, n, i + 2);
    }
    if let Tree::Internal(keys, ch) = m {
        let a = begin(t, n, i) + i;
        let b = begin(t, n, i + 1) + i;
        assert forall|x: int| 0 <= x < b - a implies #[trigger] keys.subrange(a, b)[x] != k by {
            assert(keys.subrange(a, b)[x] == keys[a + x]);
        }
        assert forall|x: int| 0 <= x < b + 1 - a implies clear(
            #[trigger] ch.subrange(a, b + 1)[x],
            k,
        ) by {
            assert(ch.subrange(a, b + 1)[x] == ch[a + x]);
        }
        if i < n - 1 {
            assert(keys[b] != k);
        }
    }
}

/// The way to a key that no separator equals: all entries to the left of the child are below
/// the key, and all to its right above it; and below the child it is the same.
proof fn lemma_clear_readied(
    keys: Seq<Seq<u8>>,
    ch: Seq<ByteTree>,
    h: nat,
    lo: Option<Seq<u8>>,
    hi: Option<Seq<u8>>,
    k: Seq<u8>,
    t: int,
    adds: bool,
)
    requires
        sorted_tree(Tree::Internal(keys, ch), h, lo, hi),
        within(lo, k, hi),
        t >= 2,
        clear(Tree::Internal(keys, ch), k),
        strict(flat(ch)),
        tense(ch[left_route(keys, k) as int].count() as int, t, adds) ==> can_rebalance(
            keys,
            ch,
            left_route(keys, k) as int,
            t,
            2 * t - 1,
        ),
    ensures
        readied(keys, ch, k, t, adds) matches Tree::Internal(k2, c2) && {
            let ci = next_child(keys, ch, k, t, adds);
            &&& clear(c2[ci], k)
            &&& forall|i: int| 0 <= i < flat(c2.take(ci)).len() ==> bytes_lt(
                (#[trigger] flat(c2.take(ci))[i]).0,
                k,
            )
            &&& forall|i: int| 0 <= i < flat(c2.skip(ci + 1)).len() ==> bytes_lt(
                k,
                (#[trigger] flat(c2.skip(ci + 1))[i]).0,
            )
            &&& (forall|i: int| 0 <= i < flat(ch).len() ==> (#[trigger] flat(ch)[i]).0 != k) ==> clear(
                Tree::Internal(k2, c2),
                k,
            )
        },
{
    lemma_bytes_order();
    lemma_readied(keys, ch, h, lo, hi, k, t, adds);
    let c0 = left_route(keys, k) as int;
    lemma_left_route(keys, k);
    if tense(ch[c0].count() as int, t, adds) {
        let l = window_left(c0);
        let r = window_right(c0, ch.len() as int);
        let n = window_target(ch, c0, t, 2 * t - 1);
        let m = joined(keys, ch, l, r);
        let lo1 = child_lo(keys, l, lo);
        let hi1 = child_hi(keys, r, hi);
        lemma_joined(keys, ch, h, lo, hi, l, r);
        lemma_clear_joined(keys, ch, h, lo, hi, l, r, k);
        let f = part_fences(m, n);
        let k2 = keys.take(l) + f + keys.skip(r);
        let c2 = ch.take(l) + parts(m, n) + ch.skip(r + 1);
        let ci = right_route(k2, k) as int;
        lemma_right_route(k2, k);
        assert forall|i: int| 0 <= i < c2.len() implies clear(#[trigger] c2[i], k) by {
            if i < l {
                assert(c2[i] == ch[i]);
            } else if i < l + n {
                assert(c2[i] == part(m, n, i - l));
                lemma_clear_part(m, n, i - l, (h - 1) as nat, lo1, hi1, k);
            } else {
                assert(c2[i] == ch[i - l - n + r + 1]);
            }
        }
        assert forall|i: int| 0 <= i < k2.len() && #[trigger] k2[i] == k implies {
            &&& c2[i + 1].contents().len() > 0
            &&& c2[i + 1].contents()[0].0 == k
        } by {
            if i < l {
                assert(k2[i] == keys[i]);
            } else if i < l + f.len() {
                assert(k2[i] == f[i - l]);
                lemma_clear_part(m, n, i - l, (h - 1) as nat, lo1, hi1, k);
                assert(c2[i + 1] == part(m, n, i - l + 1));
            } else {
                assert(k2[i] == keys[i - l - f.len() + r]);
            }
        }
        lemma_sides(k2, c2, h, lo, hi, ci);
        lemma_flat_at(c2, ci);
        let a = flat(c2.take(ci));
        let b = c2[ci].contents();
        let c = flat(c2.skip(ci + 1));
        let e = flat(ch);
        assert(e == a + b + c);
        assert forall|i: int| 0 <= i < a.len() implies bytes_lt((#[trigger] a[i]).0, k) by {
            if k2[ci - 1] == k {
                assert(e[i] == a[i]);
                assert(e[a.len() as int] == b[0]);
            }
        }
        if forall|i: int| 0 <= i < flat(ch).len() ==> (#[trigger] flat(ch)[i]).0 != k {
            assert forall|i: int| 0 <= i < k2.len() implies #[trigger] k2[i] != k by {
                if k2[i] == k {
                    lemma_flat_at(c2, i + 1);
                    let x = flat(c2.take(i + 1)).len() as int;
                    assert(flat(c2)[x] == c2[i + 1].contents()[0]);
                    assert(flat(ch)[x].0 == k);
                }
            }
        }
    } else {
        lemma_sides(keys, ch, h, lo, hi, c0);
        assert(clear(ch[c0], k));
        if c0 < keys.len() {
            assert(keys[c0] != k);
            assert(bytes_lt(k, keys[c0]));
        }
    }
}

/// A change of a key that no separator equals is the change of the entries.
pub proof fn lemma_edit_clear(
    m: ByteTree,
    h: nat,
    lo: Option<Seq<u8>>,
    hi: Option<Seq<u8>>,
    k: Seq<u8>,
    v: Option<Seq<u8>>,
    t: int,
)
    requires
        sorted_tree(m, h, lo, hi),
        within(lo, k, hi),
        t >= 2,
        can_edit(m, h, k, v, t),
        clear(m, k),
        strict(m.contents()),
    ensures
        edit(m, h, k, v, t).contents() == changed(m.contents(), k, v),
        get(m.contents(), k) is None ==> clear(edit(m, h, k, v, t), k),
    decreases h,
{
    if let Tree::Internal(keys, ch) = m {
        lemma_readied(keys, ch, h, lo, hi, k, t, v is Some);
        lemma_clear_readied(keys, ch, h, lo, hi, k, t, v is Some);
        if let Tree::Internal(k2, c2) = readied(keys, ch, k, t, v is Some) {
            let ci = next_child(keys, ch, k, t, v is Some);
            let lo1 = child_lo(k2, ci, lo);
            let hi1 = child_hi(k2, ci, hi);
            let a = flat(c2.take(ci));
            let b = c2[ci].contents();
            let c = flat(c2.skip(ci + 1));
            lemma_flat_at(c2, ci);
            let e = flat(ch);
            assert(e == a + b + c);
            assert(strict(b)) by {
                assert forall|i: int, j: int| 0 <= i < j < b.len() implies bytes_lt(
                    (#[trigger] b[i]).0,
                    (#[trigger] b[j]).0,
                ) by {
                    assert(e[a.len() + i] == b[i]);
                    assert(e[a.len() + j] == b[j]);
                }
            }
            lemma_edit_clear(c2[ci], (h - 1) as nat, lo1, hi1, k, v, t);
            lemma_edit(c2[ci], (h - 1) as nat, lo1, hi1, k, v, t);
            let d = edit(c2[ci], (h - 1) as nat, k, v, t);
            lemma_replaced(k2, c2, h, lo, hi, ci, d);
            lemma_middle(a, b, c, k, v);
            if get(e, k) is None {
                lemma_contents(m, h, lo, hi);
                assert forall|i: int| 0 <= i < e.len() implies (#[trigger] e[i]).0 != k by {
                    if e[i].0 == k {
                        lemma_found(e, k, i);
                    }
                }
                assert(clear(Tree::Internal(k2, c2), k));
                let c3 = c2.update(ci, d);
                assert forall|i: int| 0 <= i < c3.len() implies clear(#[trigger] c3[i], k) by {
                    if i != ci {
                        assert(c3[i] == c2[i]);
                    }
                }
            }
        }
    }
}

/// The entries of the leaf that a change reaches.
pub open spec fn edit_leaf(m: ByteTree, h: nat, k: Seq<u8>, t: int, adds: bool) -> Seq<Entry>
    decreases h,
{
    match m {
        Tree::Leaf(e) => e,
        Tree::Internal(keys, ch) => match readied(keys, ch, k, t, adds) {
            Tree::Leaf(_) => Seq::empty(),
            Tree::Internal(_, c2) => if h == 0 {
                Seq::empty()
            } else {
                edit_leaf(c2[next_child(keys, ch, k, t, adds)], (h - 1) as nat, k, t, adds)
            },
        },
    }
}

/// A lookup of `k` after a change ends at the leaf that the change reached.
pub open spec fn steered(m: ByteTree, h: nat, k: Seq<u8>, t: int, adds: bool) -> bool
    decreases h,
{
    match m {
        Tree::Leaf(_) => true,
        Tree::Internal(keys, ch) => match readied(keys, ch, k, t, adds) {
            Tree::Leaf(_) => false,
            Tree::Internal(k2, c2) => {
                let ci = next_child(keys, ch, k, t, adds);
                h > 0 && ci == left_route(k2, k) && steered(c2[ci], (h - 1) as nat, k, t, adds)
            },
        },
    }
}

pub proof fn lemma_steered(
    m: ByteTree,
    h: nat,
    lo: Option<Seq<u8>>,
    hi: Option<Seq<u8>>,
    k: Seq<u8>,
    v: Option<Seq<u8>>,
    t: int,
)
    requires
        sorted_tree(m, h, lo, hi),
        within(lo, k, hi),
        t >= 2,
        can_edit(m, h, k, v, t),
        steered(m, h, k, t, v is Some),
    ensures
        seek(edit(m, h, k, v, t), h, k) == changed(edit_leaf(m, h, k, t, v is Some), k, v),
    decreases h,
{
    if let Tree::Internal(keys, ch) = m {
        lemma_readied(keys, ch, h, lo, hi, k, t, v is Some);
        if let Tree::Internal(k2, c2) = readied(keys, ch, k, t, v is Some) {
            let ci = next_child(keys, ch, k, t, v is Some);
            lemma_steered(
                c2[ci],
                (h - 1) as nat,
                child_lo(k2, ci, lo),
                child_hi(k2, ci, hi),
                k,
                v,
                t,
            );
        }
    }
}

/// By how much a change makes the entries more or fewer.
pub proof fn lemma_edit_len(
    m: ByteTree,
    h: nat,
    lo: Option<Seq<u8>>,
    hi: Option<Seq<u8>>,
    k: Seq<u8>,
    v: Option<Seq<u8>>,
    t: int,
)
    requires
        sorted_tree(m, h, lo, hi),
        within(lo, k, hi),
        t >= 2,
        can_edit(m, h, k, v, t),
    ensures
        edit(m, h, k, v, t).contents().len() == m.contents().len() + match v {
            Some(_) => if found(edit_leaf(m, h, k, t, true), k) {
                0int
            } else {
                1int
            },
            None => if found(edit_leaf(m, h, k, t, false), k) {
                -1int
            } else {
                0int
            },
        },
    decreases h,
{
    match m {
        Tree::Leaf(e) => {
            lemma_place(e, k);
        },
        Tree::Internal(keys, ch) => {
            lemma_readied(keys, ch, h, lo, hi, k, t, v is Some);
            if let Tree::Internal(k2, c2) = readied(keys, ch, k, t, v is Some) {
                let ci = next_child(keys, ch, k, t, v is Some);
                let lo1 = child_lo(k2, ci, lo);
                let hi1 = child_hi(k2, ci, hi);
                lemma_edit_len(c2[ci], (h - 1) as nat, lo1, hi1, k, v, t);
                lemma_edit(c2[ci], (h - 1) as nat, lo1, hi1, k, v, t);
                let c = edit(c2[ci], (h - 1) as nat, k, v, t);
                lemma_replaced(k2, c2, h, lo, hi, ci, c);
            }
        },
    }
}

/// A key that no separator equals is looked for in the leaf that holds it.
pub proof fn lemma_edit_leaf(
    m: ByteTree,
    h: nat,
    lo: Option<Seq<u8>>,
    hi: Option<Seq<u8>>,
    k: Seq<u8>,
    v: Option<Seq<u8>>,
    t: int,
)
    requires
        sorted_tree(m, h, lo, hi),
        within(lo, k, hi),
        t >= 2,
        can_edit(m, h, k, v, t),
        clear(m, k),
        strict(m.contents()),
    ensures
        get(edit_leaf(m, h, k, t, v is Some), k) == get(m.contents(), k),
    decreases h,
{
    if let Tree::Internal(keys, ch) = m {
        lemma_readied(keys, ch, h, lo, hi, k, t, v is Some);
        lemma_clear_readied(keys, ch, h, lo, hi, k, t, v is Some);
        if let Tree::Internal(k2, c2) = readied(keys, ch, k, t, v is Some) {
            let ci = next_child(keys, ch, k, t, v is Some);
            let lo1 = child_lo(k2, ci, lo);
            let hi1 = child_hi(k2, ci, hi);
            let a = flat(c2.take(ci));
            let b = c2[ci].contents();
            let c = flat(c2.skip(ci + 1));
            lemma_flat_at(c2, ci);
            let e = flat(ch);
            assert(e == a + b + c);
            assert(strict(b)) by {
                assert forall|i: int, j: int| 0 <= i < j < b.len() implies bytes_lt(
                    (#[trigger] b[i]).0,
                    (#[trigger] b[j]).0,
                ) by {
                    assert(e[a.len() + i] == b[i]);
                    assert(e[a.len() + j] == b[j]);
                }
            }
            lemma_edit_leaf(c2[ci], (h - 1) as nat, lo1, hi1, k, v, t);
            lemma_middle(a, b, c, k, v);
        }
    }
}

// The root -----------------------------------------------------------------------------

/// How much the left part of a root that is split keeps.
pub open spec fn split_at(m: ByteTree, t: int) -> int {
    if m is Leaf {
        t
    } else {
        t - 1
    }
}

/// A root with two halves of a full one below it.
pub open spec fn split_root(m: ByteTree, t: int) -> ByteTree {
    let (a, s, b) = cut(m, split_at(m, t));
    Tree::Internal(seq![s], seq![a, b])
}

pub proof fn lemma_split_root(m: ByteTree, h: nat, t: int)
    requires
        sorted_tree(m, h, None, None),
        m.count() == 2 * t - 1,
        t >= 2,
    ensures
        sorted_tree(split_root(m, t), h + 1, None, None),
        split_root(m, t).contents() == m.contents(),
{
    lemma_bytes_order();
    let p = split_at(m, t);
    let (a, s, b) = cut(m, p);
    let c = seq![a, b];
    let k = seq![s];
    match m {
        Tree::Leaf(e) => {
            let x = e.take(p);
            let y = e.skip(p);
            assert forall|i: int| 0 <= i < x.len() implies within(None, (#[trigger] x[i]).0, Some(s)) by {
                assert(bytes_le(e[i].0, e[p].0));
            }
            assert forall|i: int| 0 <= i < y.len() implies within(Some(s), (#[trigger] y[i]).0, None) by {
                assert(y[i] == e[p + i]);
                if i > 0 {
                    assert(bytes_le(e[p].0, e[p + i].0));
                }
            }
            assert(sorted_tree(a, h, None, Some(s)));
            assert(sorted_tree(b, h, Some(s), None));
            assert(x + y =~= e);
        },
        Tree::Internal(keys, ch) => {
            let k1 = keys.take(p);
            let c1 = ch.take(p + 1);
            let k2 = keys.skip(p + 1);
            let c2 = ch.skip(p + 1);
            assert forall|i: int| 0 <= i < k1.len() implies within(None, #[trigger] k1[i], Some(s)) by {
                assert(bytes_le(keys[i], keys[p]));
            }
            assert forall|i: int| 0 <= i < k2.len() implies within(Some(s), #[trigger] k2[i], None) by {
                assert(bytes_le(keys[p], keys[p + 1 + i]));
            }
            assert(sorted_tree(a, h, None, Some(s))) by {
                assert forall|i: int| 0 <= i < c1.len() implies sorted_tree(
                    #[trigger] c1[i],
                    (h - 1) as nat,
                    child_lo(k1, i, None),
                    child_hi(k1, i, Some(s)),
                ) by {
                    assert(c1[i] == ch[i]);
                    assert(sorted_tree(
                        ch[i],
                        (h - 1) as nat,
                        child_lo(keys, i, None),
                        child_hi(keys, i, None),
                    ));
                }
            }
            assert(sorted_tree(b, h, Some(s), None)) by {
                assert forall|i: int| 0 <= i < c2.len() implies sorted_tree(
                    #[trigger] c2[i],
                    (h - 1) as nat,
                    child_lo(k2, i, Some(s)),
                    child_hi(k2, i, None),
                ) by {
                    assert(c2[i] == ch[p + 1 + i]);
                    assert(sorted_tree(
                        ch[p + 1 + i],
                        (h - 1) as nat,
                        child_lo(keys, p + 1 + i, None),
                        child_hi(keys, p + 1 + i, None),
                    ));
                }
            }
            assert(c1 + c2 =~= ch);
            lemma_flat_concat(c1, c2);
        },
    }
    assert(a.contents() + b.contents() == m.contents());
    lemma_flat_at(c, 0);
    assert(c.take(0) =~= Seq::empty());
    assert(c.skip(1) =~= seq![b]);
    lemma_flat_one(b);
    assert(flat(c) =~= a.contents() + b.contents());
    assert forall|i: int| 0 <= i < c.len() implies sorted_tree(
        #[trigger] c[i],
        h,
        child_lo(k, i, None),
        child_hi(k, i, None),
    ) by {}
}

/// The tree that an insertion starts from: a full root is split first.
pub open spec fn insert_start(m: ByteTree, t: int) -> ByteTree {
    if m.count() == 2 * t - 1 {
        split_root(m, t)
    } else {
        m
    }
}

/// Its height.
pub open spec fn insert_height(m: ByteTree, h: nat, t: int) -> nat {
    if m.count() == 2 * t - 1 {
        h + 1
    } else {
        h
    }
}

/// The tree after an insertion.
pub open spec fn inserted(m: ByteTree, h: nat, k: Seq<u8>, v: Seq<u8>, t: int) -> ByteTree {
    edit(insert_start(m, t), insert_height(m, h, t), k, Some(v), t)
}

/// How many pages an insertion takes and how many it gives back: two for a root that is split, and
/// those of the way down.
pub open spec fn insert_pages(m: ByteTree, h: nat, k: Seq<u8>, v: Seq<u8>, t: int) -> (nat, nat) {
    let below = edit_pages(insert_start(m, t), insert_height(m, h, t), k, Some(v), t);
    if m.count() == 2 * t - 1 {
        (below.0 + 2, below.1)
    } else {
        below
    }
}

/// A full root can be split on the way to `k`: the cells of its halves fit on their pages, and the
/// new root and the half that the way takes fit altogether.
pub open spec fn can_split(m: ByteTree, k: Seq<u8>, t: int) -> bool {
    let (a, s, b) = cut(m, split_at(m, t));
    &&& packed(a)
    &&& packed(b)
    &&& roomy(split_root(m, t))
    &&& roomy(
        if left_route(seq![s], k) == 0 {
            a
        } else {
            b
        },
    )
}

/// The insertion can be made.
pub open spec fn can_insert(m: ByteTree, h: nat, k: Seq<u8>, v: Seq<u8>, t: int) -> bool {
    &&& m.count() == 2 * t - 1 ==> {
        can_split(m, k, t)
    }
    &&& can_edit(insert_start(m, t), insert_height(m, h, t), k, Some(v), t)
}

/// The first thing in the way of the insertion is a leaf without entries where one is needed.
pub open spec fn insert_starved(m: ByteTree, h: nat, k: Seq<u8>, v: Seq<u8>, t: int) -> bool {
    &&& m.count() == 2 * t - 1 ==> {
        can_split(m, k, t)
    }
    &&& starved(insert_start(m, t), insert_height(m, h, t), k, Some(v), t)
}

/// The removal can be made; at its end the head of the root is read again.
pub open spec fn can_remove(m: ByteTree, h: nat, k: Seq<u8>, t: int) -> bool {
    can_edit(m, h, k, None, t) && headed(edit(m, h, k, None, t))
}

/// A root without separators gives way to its only child.
pub open spec fn trimmed(m: ByteTree) -> ByteTree {
    match m {
        Tree::Leaf(_) => m,
        Tree::Internal(keys, ch) => if keys.len() == 0 {
            ch[0]
        } else {
            m
        },
    }
}

/// Its height.
pub open spec fn trimmed_height(m: ByteTree, h: nat) -> nat {
    match m {
        Tree::Leaf(_) => h,
        Tree::Internal(keys, _) => if keys.len() == 0 && h > 0 {
            (h - 1) as nat
        } else {
            h
        },
    }
}

pub proof fn lemma_trimmed(m: ByteTree, h: nat)
    requires
        sorted_tree(m, h, None, None),
    ensures
        sorted_tree(trimmed(m), trimmed_height(m, h), None, None),
        trimmed(m).contents() == m.contents(),
{
    if let Tree::Internal(keys, ch) = m {
        if keys.len() == 0 {
            assert(sorted_tree(ch[0], (h - 1) as nat, child_lo(keys, 0, None), child_hi(keys, 0, None)));
            assert(ch =~= seq![ch[0]]);
            lemma_flat_one(ch[0]);
        }
    }
}

/// The tree after a removal.
pub open spec fn removed(m: ByteTree, h: nat, k: Seq<u8>, t: int) -> ByteTree {
    trimmed(edit(m, h, k, None, t))
}

/// Its height.
pub open spec fn removed_height(m: ByteTree, h: nat, k: Seq<u8>, t: int) -> nat {
    trimmed_height(edit(m, h, k, None, t), h)
}

// Walking ------------------------------------------------------------------------------

/// What a walk from `k` on meets: the way down takes the child to the right of a separator
/// that equals `k`.
pub open spec fn tail_from(m: ByteTree, h: nat, k: Seq<u8>) -> Seq<Entry>
    decreases h,
{
    match m {
        Tree::Leaf(e) => e.skip(place(e, k) as int),
        Tree::Internal(keys, ch) => if h == 0 {
            Seq::empty()
        } else {
            let ci = right_route(keys, k) as int;
            tail_from(ch[ci], (h - 1) as nat, k) + flat(ch.skip(ci + 1))
        },
    }
}

/// A walk from a key that no separator equals meets all entries from that key on.
pub proof fn lemma_tail_from(
    m: ByteTree,
    h: nat,
    lo: Option<Seq<u8>>,
    hi: Option<Seq<u8>>,
    k: Seq<u8>,
)
    requires
        sorted_tree(m, h, lo, hi),
        clear(m, k),
    ensures
        tail_from(m, h, k) == m.contents().skip(place(m.contents(), k) as int),
    decreases h,
{
    if let Tree::Internal(keys, ch) = m {
        let ci = right_route(keys, k) as int;
        lemma_right_route(keys, k);
        lemma_bytes_order();
        assert(sorted_tree(ch[ci], (h - 1) as nat, child_lo(keys, ci, lo), child_hi(keys, ci, hi)));
        assert(clear(ch[ci], k));
        lemma_tail_from(ch[ci], (h - 1) as nat, child_lo(keys, ci, lo), child_hi(keys, ci, hi), k);
        lemma_sides(keys, ch, h, lo, hi, ci);
        lemma_flat_at(ch, ci);
        let a = flat(ch.take(ci));
        let b = ch[ci].contents();
        let c = flat(ch.skip(ci + 1));
        if ci > 0 {
            assert(keys[ci - 1] != k);
            assert(bytes_lt(keys[ci - 1], k));
        }
        lemma_place_middle(a, b, c, k);
        lemma_place(b, k);
        assert((a + b + c).skip(place(a + b + c, k) as int) =~= b.skip(place(b, k) as int) + c);
    }
}

proof fn lemma_place_middle(a: Seq<Entry>, b: Seq<Entry>, c: Seq<Entry>, k: Seq<u8>)
    requires
        forall|i: int| 0 <= i < a.len() ==> bytes_lt((#[trigger] a[i]).0, k),
        forall|i: int| 0 <= i < c.len() ==> bytes_lt(k, (#[trigger] c[i]).0),
    ensures
        place(a + b + c, k) == a.len() + place(b, k),
    decreases a.len(),
{
    let e = a + b + c;
    if a.len() == 0 {
        assert(e =~= b + c);
        lemma_front(b, c, k);
    } else {
        let a1 = a.drop_first();
        assert forall|i: int| 0 <= i < a1.len() implies bytes_lt((#[trigger] a1[i]).0, k) by {
            assert(a1[i] == a[i + 1]);
        }
        lemma_place_middle(a1, b, c, k);
        assert(e.drop_first() =~= a1 + b + c);
        assert(e[0] == a[0]);
    }
}

} // verus!
