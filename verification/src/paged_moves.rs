//! What the terms for trees on pages come to: ways, entries, and what a change does to nodes.
use crate::bytes::{bytes_le, bytes_lt, lemma_bytes_order};
use crate::bytetree::{
    begin, can_deal, can_rebalance, changed, clear, del, edit, edit_pages, found, get, halved,
    headed, insert_height, insert_pages, insert_start, inserted, joined, left_route, lemma_begin,
    lemma_found, lemma_left_route, lemma_place, lemma_right_route, load, looked_up, packed,
    page_view, part_fences, parts, place, put, rebalanced, removed, removed_height, right_route,
    rising, roomy, seek, share, sorted_tree, strict, tail_from, target, tense, window_left,
    window_right, ByteTree, Entry,
};
use crate::codec::{total, NodeView};
use crate::outline::{lines_of, lines_of_row, LineSpec};
use crate::store::PageId;
use crate::tree::{child_hi, child_lo, join, Tree};
use vstd::prelude::*;

verus! {

// Ways and entries -----------------------------------------------------------------------

/// Keys do not fall if none sorts behind the next one, and rise if each sorts before the next one.
pub proof fn law_rising(e: Seq<Entry>)
    ensures
        rising(e) <==> forall|i: int| 0 <= i < e.len() - 1 ==> !bytes_lt(e[i + 1].0, #[trigger] e[i].0),
        strict(e) <==> forall|i: int| 0 <= i < e.len() - 1 ==> bytes_lt(#[trigger] e[i].0, e[i + 1].0),
{
    lemma_bytes_order();
    if forall|i: int| 0 <= i < e.len() - 1 ==> !bytes_lt(e[i + 1].0, #[trigger] e[i].0) {
        assert forall|i: int, j: int| #![trigger e[i], e[j]] 0 <= i < j < e.len() implies bytes_le(
            e[i].0,
            e[j].0,
        ) by {
            lemma_not_falling(e, i, j);
        }
    }
    if forall|i: int| 0 <= i < e.len() - 1 ==> bytes_lt(#[trigger] e[i].0, e[i + 1].0) {
        assert forall|i: int, j: int| #![trigger e[i], e[j]] 0 <= i < j < e.len() implies bytes_lt(
            e[i].0,
            e[j].0,
        ) by {
            lemma_rising(e, i, j);
        }
    }
}

proof fn lemma_not_falling(e: Seq<Entry>, i: int, j: int)
    requires
        0 <= i < j < e.len(),
        forall|i: int| 0 <= i < e.len() - 1 ==> !bytes_lt(e[i + 1].0, #[trigger] e[i].0),
    ensures
        !bytes_lt(e[j].0, e[i].0),
    decreases j - i,
{
    lemma_bytes_order();
    assert(!bytes_lt(e[j - 1 + 1].0, e[j - 1].0));
    if i + 1 < j {
        lemma_not_falling(e, i, j - 1);
        assert(bytes_le(e[i].0, e[j - 1].0) && bytes_le(e[j - 1].0, e[j].0));
    }
}

proof fn lemma_rising(e: Seq<Entry>, i: int, j: int)
    requires
        0 <= i < j < e.len(),
        forall|i: int| 0 <= i < e.len() - 1 ==> bytes_lt(#[trigger] e[i].0, e[i + 1].0),
    ensures
        bytes_lt(e[i].0, e[j].0),
    decreases j - i,
{
    lemma_bytes_order();
    assert(bytes_lt(e[j - 1].0, e[j - 1 + 1].0));
    if i + 1 < j {
        lemma_rising(e, i, j - 1);
    }
}

/// Among separators that do not fall, the way of a lookup takes the child behind those below the
/// key, and the way of a walk the child behind those that are not above it.
pub proof fn law_ways(keys: Seq<Seq<u8>>, k: Seq<u8>)
    requires
        forall|i: int, j: int|
            #![trigger keys[i], keys[j]]
            0 <= i < j < keys.len() ==> !bytes_lt(keys[j], keys[i]),
    ensures
        left_route(keys, k) <= right_route(keys, k) <= keys.len(),
        forall|i: int| 0 <= i < keys.len() ==> (bytes_lt(#[trigger] keys[i], k) <==> i < left_route(keys, k)),
        forall|i: int| 0 <= i < keys.len() ==> (bytes_lt(k, #[trigger] keys[i]) <==> i >= right_route(keys, k)),
{
    lemma_bytes_order();
    lemma_left_route(keys, k);
    lemma_right_route(keys, k);
    let a = left_route(keys, k) as int;
    let b = right_route(keys, k) as int;
    assert forall|i: int| a <= i < keys.len() implies !bytes_lt(#[trigger] keys[i], k) by {
        if i > a {
            assert(!bytes_lt(keys[i], keys[a]));
        }
    }
    assert forall|i: int| b <= i < keys.len() implies bytes_lt(k, #[trigger] keys[i]) by {
        if i > b {
            assert(!bytes_lt(keys[i], keys[b]));
        }
    }
    if b < a {
        assert(bytes_lt(keys[b], k) && bytes_lt(k, keys[b]));
    }
}

/// The place of a key among entries that do not fall is behind those below it.
pub proof fn law_place(e: Seq<Entry>, k: Seq<u8>)
    requires
        rising(e),
    ensures
        place(e, k) <= e.len(),
        forall|i: int| 0 <= i < e.len() ==> (bytes_lt((#[trigger] e[i]).0, k) <==> i < place(e, k)),
{
    lemma_bytes_order();
    lemma_place(e, k);
    let a = place(e, k) as int;
    assert forall|i: int| a <= i < e.len() implies !bytes_lt((#[trigger] e[i]).0, k) by {
        if i > a {
            assert(bytes_le(e[a].0, e[i].0));
        }
    }
}

/// What entries have under a key is the value of the first one with that key.
pub proof fn law_entry_get(e: Seq<Entry>, k: Seq<u8>)
    requires
        rising(e),
    ensures
        match get(e, k) {
            Some(v) => exists|i: int|
                0 <= i < e.len() && #[trigger] e[i] == (k, v) && forall|j: int|
                    0 <= j < i ==> (#[trigger] e[j]).0 != k,
            None => forall|i: int| 0 <= i < e.len() ==> (#[trigger] e[i]).0 != k,
        },
        found(e, k) <==> get(e, k) is Some,
{
    lemma_bytes_order();
    law_place(e, k);
    let p = place(e, k) as int;
    if found(e, k) {
        assert(e[p] == (k, e[p].1));
    } else {
        assert forall|i: int| 0 <= i < e.len() implies (#[trigger] e[i]).0 != k by {
            if e[i].0 == k {
                lemma_found(e, k, i);
            }
        }
    }
}

/// A value that is put under a key takes the place of the first entry with that key, or stands
/// between the smaller and the greater keys; every other entry stays.
pub proof fn law_entry_put(e: Seq<Entry>, k: Seq<u8>, v: Seq<u8>)
    requires
        rising(e),
    ensures
        exists|r: int|
            #![trigger e.take(r)]
            {
                &&& 0 <= r <= e.len()
                &&& forall|i: int| 0 <= i < r ==> bytes_lt((#[trigger] e[i]).0, k)
                &&& if r < e.len() && e[r].0 == k {
                    put(e, k, v) == e.take(r) + seq![(k, v)] + e.skip(r + 1)
                } else {
                    &&& forall|i: int| r <= i < e.len() ==> bytes_lt(k, (#[trigger] e[i]).0)
                    &&& put(e, k, v) == e.take(r) + seq![(k, v)] + e.skip(r)
                }
            },
        changed(e, k, Some(v)) == put(e, k, v),
{
    lemma_bytes_order();
    law_place(e, k);
    law_entry_get(e, k);
    let r = place(e, k) as int;
    if found(e, k) {
        assert(put(e, k, v) =~= e.take(r) + seq![(k, v)] + e.skip(r + 1));
    } else {
        assert(put(e, k, v) =~= e.take(r) + seq![(k, v)] + e.skip(r));
        assert forall|i: int| r <= i < e.len() implies bytes_lt(k, (#[trigger] e[i]).0) by {
            assert(e[i].0 != k && !bytes_lt(e[i].0, k));
        }
    }
    assert(e.take(r) == e.take(r));
}

/// Deleting a key takes out the first entry with that key, if there is one, and no other.
pub proof fn law_entry_del(e: Seq<Entry>, k: Seq<u8>)
    requires
        rising(e),
    ensures
        forall|i: int|
            0 <= i < e.len() && (#[trigger] e[i]).0 == k && (forall|j: int|
                0 <= j < i ==> (#[trigger] e[j]).0 != k) ==> del(e, k) == e.take(i) + e.skip(i + 1),
        (forall|i: int| 0 <= i < e.len() ==> (#[trigger] e[i]).0 != k) ==> del(e, k) == e,
        changed(e, k, None) == del(e, k),
{
    lemma_bytes_order();
    law_place(e, k);
    assert forall|i: int|
        0 <= i < e.len() && (#[trigger] e[i]).0 == k && (forall|j: int|
            0 <= j < i ==> (#[trigger] e[j]).0 != k) implies del(e, k) == e.take(i) + e.skip(i + 1) by {
        lemma_found(e, k, i);
        let p = place(e, k) as int;
        assert(e[p].0 == k);
        if p > i {
            assert(bytes_lt(e[i].0, k));
        }
        assert(p == i);
        assert(e.remove(i) =~= e.take(i) + e.skip(i + 1));
    }
}

/// A lookup among entries whose keys rise gives the value of the entry with that key, and nothing
/// if there is none.
pub proof fn law_looked_up(e: Seq<Entry>, k: Seq<u8>, v: Option<Seq<u8>>)
    requires
        strict(e),
    ensures
        looked_up(e, k, v) <==> match v {
            Some(v) => exists|i: int| 0 <= i < e.len() && #[trigger] e[i] == (k, v),
            None => forall|i: int| 0 <= i < e.len() ==> (#[trigger] e[i]).0 != k,
        },
{
    lemma_bytes_order();
    assert(rising(e)) by {
        assert forall|i: int, j: int| #![trigger e[i], e[j]] 0 <= i < j < e.len() implies bytes_le(
            e[i].0,
            e[j].0,
        ) by {
            assert(bytes_lt(e[i].0, e[j].0));
        }
    }
    let u = match halved(e, k, 0, e.len() as int) {
        Ok(i) => Some(e[i].1),
        Err(_) => None,
    };
    assert(looked_up(e, k, u));
    crate::bytetree::lemma_looked_up(e, k, u);
    law_entry_get(e, k);
    match u {
        Some(x) => {
            let i = choose|i: int| 0 <= i < e.len() && #[trigger] e[i] == (k, x);
            assert forall|j: int| 0 <= j < e.len() && (#[trigger] e[j]).0 == k implies j == i by {
                if j < i {
                    assert(bytes_lt(e[j].0, e[i].0));
                }
                if i < j {
                    assert(bytes_lt(e[i].0, e[j].0));
                }
            }
        },
        None => {},
    }
}

/// A lookup looks at the entry in the middle, goes on to the right of a smaller key and to the left
/// of a greater one, and ends at one with the key or where nothing is left.
pub proof fn law_entry_halving(e: Seq<Entry>, k: Seq<u8>, l: int, r: int)
    requires
        0 <= l,
    ensures
        l >= r ==> halved(e, k, l, r) == Err::<int, int>(l),
        l < r ==> {
            let mid = (l + r) / 2;
            &&& e[mid].0 == k ==> halved(e, k, l, r) == Ok::<int, int>(mid)
            &&& bytes_lt(e[mid].0, k) ==> halved(e, k, l, r) == halved(e, k, mid + 1, r)
            &&& bytes_lt(k, e[mid].0) ==> halved(e, k, l, r) == halved(e, k, l, mid)
        },
        forall|v: Option<Seq<u8>>| #[trigger]
            looked_up(e, k, v) <==> v == (match halved(e, k, 0, e.len() as int) {
                Ok(i) => Some(e[i].1),
                Err(_) => None,
            }),
{
    let mid = (l + r) / 2;
    crate::plain::law_rank(e[mid].0, k);
    if l < r {
        assert(l + (r - l) / 2 == mid);
    }
}

/// A search tree on pages of height `h`: a leaf of height zero whose keys do not fall and lie
/// between `lo` and `hi`, either of which they may equal; or an inner node with one child more than
/// separators, which do not fall and lie between them too, whose children are search trees one
/// level lower between the separators on their left and on their right.
pub proof fn law_sorted_tree(m: ByteTree, h: nat, lo: Option<Seq<u8>>, hi: Option<Seq<u8>>)
    ensures
        sorted_tree(m, h, lo, hi) <==> match m {
            Tree::Leaf(e) => {
                &&& h == 0
                &&& rising(e)
                &&& lo matches Some(a) ==> forall|i: int|
                    0 <= i < e.len() ==> !bytes_lt((#[trigger] e[i]).0, a)
                &&& hi matches Some(b) ==> forall|i: int|
                    0 <= i < e.len() ==> !bytes_lt(b, (#[trigger] e[i]).0)
            },
            Tree::Internal(keys, ch) => {
                &&& h > 0
                &&& ch.len() == keys.len() + 1
                &&& forall|i: int, j: int|
                    #![trigger keys[i], keys[j]]
                    0 <= i < j < keys.len() ==> !bytes_lt(keys[j], keys[i])
                &&& lo matches Some(a) ==> forall|i: int|
                    0 <= i < keys.len() ==> !bytes_lt(#[trigger] keys[i], a)
                &&& hi matches Some(b) ==> forall|i: int|
                    0 <= i < keys.len() ==> !bytes_lt(b, #[trigger] keys[i])
                &&& forall|i: int|
                    0 <= i < ch.len() ==> sorted_tree(
                        #[trigger] ch[i],
                        (h - 1) as nat,
                        if i > 0 {
                            Some(keys[i - 1])
                        } else {
                            lo
                        },
                        if i < keys.len() {
                            Some(keys[i])
                        } else {
                            hi
                        },
                    )
            },
        },
{
    if let Tree::Internal(keys, ch) = m {
        if h > 0 && ch.len() == keys.len() + 1 {
            assert forall|i: int| 0 <= i < ch.len() implies sorted_tree(
                #[trigger] ch[i],
                (h - 1) as nat,
                child_lo(keys, i, lo),
                child_hi(keys, i, hi),
            ) == sorted_tree(
                ch[i],
                (h - 1) as nat,
                if i > 0 {
                    Some(keys[i - 1])
                } else {
                    lo
                },
                if i < keys.len() {
                    Some(keys[i])
                } else {
                    hi
                },
            ) by {}
        }
    }
}

// Windows --------------------------------------------------------------------------------

/// What is dealt out comes out as evenly as can be: the shares add up, none is larger than the one
/// before it, and the first is at most one larger than the last.
pub proof fn law_shares(total: int, n: int, i: int)
    requires
        0 <= total,
        0 <= i < n,
    ensures
        begin(total, n, 0) == 0,
        begin(total, n, i + 1) == begin(total, n, i) + share(total, n, i),
        begin(total, n, n) == total,
        i > 0 ==> share(total, n, i) <= share(total, n, i - 1),
        share(total, n, 0) - share(total, n, n - 1) <= 1,
        n * share(total, n, n - 1) <= total <= n * share(total, n, 0),
{
    lemma_begin(total, n, i);
    let q = total / n;
    let r = total % n;
    assert(total == n * q + r && 0 <= r < n) by (nonlinear_arith)
        requires
            q == total / n,
            r == total % n,
            n > 0,
    ;
    assert(n * (q + 1) == n * q + n) by (nonlinear_arith);
}

/// The window around a child is the child and its neighbours.
pub proof fn law_window(ci: int, len: int, j: int)
    requires
        0 <= ci < len,
        0 <= j < len,
    ensures
        window_left(ci) <= j <= window_right(ci, len) <==> ci - 1 <= j <= ci + 1,
        0 <= window_left(ci) <= ci <= window_right(ci, len) < len,
{
}

/// What the nodes of a window hold together is the sum of what they hold, and as one node they are
/// joined one after another.
pub proof fn law_window_load(keys: Seq<Seq<u8>>, ch: Seq<Tree<Seq<u8>, Seq<u8>>>, l: int, r: int)
    requires
        0 <= l <= r,
    ensures
        load(ch, l, l) == ch[l].count(),
        load(ch, l, r + 1) == load(ch, l, r) + ch[r + 1].count(),
        joined(keys, ch, l, l) == ch[l],
        joined(keys, ch, l, r + 1) == join(joined(keys, ch, l, r), keys[r], ch[r + 1]),
{
    reveal_with_fuel(load, 2);
    reveal_with_fuel(joined, 2);
}

/// A window is dealt out to one node more where its nodes would hold more than one less than the
/// most on average, to one node less where they would hold less than the least, and else to as many
/// as it has.
pub proof fn law_target(sum: int, w: int, t: int, max: int)
    requires
        w >= 1,
        1 <= t < max,
    ensures
        sum <= w * (max - 1) && (sum >= w * t || w == 1) ==> target(sum, w, t, max) == w,
        sum > w * (max - 1) ==> target(sum, w, t, max) == w + 1,
        sum < w * t && w > 1 ==> target(sum, w, t, max) == w - 1,
{
    if sum < w * t {
        assert(w * t <= w * (max - 1)) by (nonlinear_arith)
            requires
                w >= 1,
                t <= max - 1,
        ;
    }
}

/// A child is made ready for an insertion if it is full, and for a removal if it holds less than the
/// least.
pub proof fn law_tense(c: int, t: int)
    ensures
        tense(c, t, true) <==> c == 2 * t - 1,
        tense(c, t, false) <==> c < t,
{
}

/// A node that is dealt out to `n` nodes: each gets its share, the separators go between them, and
/// joined again they are the node. The separator before a leaf is its first key.
pub proof fn law_dealt_back(m: ByteTree, n: int)
    requires
        m matches Tree::Internal(keys, ch) ==> ch.len() == keys.len() + 1,
        1 <= n,
        match m {
            Tree::Leaf(e) => n == 1 || n <= e.len(),
            Tree::Internal(keys, _) => n <= keys.len() + 1,
        },
    ensures
        parts(m, n).len() == n,
        part_fences(m, n).len() == n - 1,
        joined(part_fences(m, n), parts(m, n), 0, n - 1) == m,
        forall|i: int|
            0 <= i < n ==> (#[trigger] parts(m, n)[i]).count() == share(
                if m is Leaf {
                    m.count() as int
                } else {
                    m.count() - (n - 1)
                },
                n,
                i,
            ),
        forall|i: int|
            1 <= i < n ==> (#[trigger] parts(m, n)[i] matches Tree::Leaf(e) ==> e.len() > 0 && part_fences(
                m,
                n,
            )[i - 1] == e[0].0),
{
    let total = if m is Leaf {
        m.count() as int
    } else {
        m.count() - (n - 1)
    };
    assert forall|i: int| 0 <= i < n implies (#[trigger] parts(m, n)[i]).count() == share(total, n, i) by {
        lemma_begin(total, n, i);
        lemma_begin(total, n, i + 1);
    }
    assert forall|i: int| 1 <= i < n implies (#[trigger] parts(m, n)[i] matches Tree::Leaf(e) ==> e.len()
        > 0 && part_fences(m, n)[i - 1] == e[0].0) by {
        lemma_begin(total, n, i);
        lemma_begin(total, n, i + 1);
    }
    lemma_dealt_back(m, n, n - 1);
    match m {
        Tree::Leaf(e) => {
            lemma_begin(total, n, n);
            assert(e.take(total) =~= e);
        },
        Tree::Internal(keys, ch) => {
            lemma_begin(total, n, n);
            assert(keys.take(total + n - 1) =~= keys);
            assert(ch.take(total + n) =~= ch);
        },
    }
}

/// The first parts, joined, are the beginning of the node.
proof fn lemma_dealt_back(m: ByteTree, n: int, i: int)
    requires
        m matches Tree::Internal(keys, ch) ==> ch.len() == keys.len() + 1,
        0 <= i < n,
        can_deal(m, n),
    ensures
        joined(part_fences(m, n), parts(m, n), 0, i) == match m {
            Tree::Leaf(e) => Tree::Leaf(e.take(begin(e.len() as int, n, i + 1))),
            Tree::Internal(keys, ch) => {
                let b = begin(keys.len() - (n - 1), n, i + 1) + i;
                Tree::Internal(keys.take(b), ch.take(b + 1))
            },
        },
    decreases i,
{
    let total = if m is Leaf {
        m.count() as int
    } else {
        m.count() - (n - 1)
    };
    lemma_begin(total, n, i);
    lemma_begin(total, n, i + 1);
    let a = begin(total, n, i);
    let b = begin(total, n, i + 1);
    if i == 0 {
        match m {
            Tree::Leaf(e) => {
                assert(e.subrange(a, b) =~= e.take(b));
            },
            Tree::Internal(keys, ch) => {
                assert(keys.subrange(a, b) =~= keys.take(b));
                assert(ch.subrange(a, b + 1) =~= ch.take(b + 1));
            },
        }
    } else {
        lemma_dealt_back(m, n, i - 1);
        match m {
            Tree::Leaf(e) => {
                assert(e.take(a) + e.subrange(a, b) =~= e.take(b));
            },
            Tree::Internal(keys, ch) => {
                assert(part_fences(m, n)[i - 1] == keys[a + i - 1]);
                assert(keys.take(a + i - 1).push(keys[a + i - 1]) + keys.subrange(a + i, b + i)
                    =~= keys.take(b + i));
                assert(ch.take(a + i) + ch.subrange(a + i, b + i + 1) =~= ch.take(b + i + 1));
            },
        }
    }
}

/// Rebalancing replaces the window around a child, and nothing else, by the nodes that it is dealt
/// out to.
pub proof fn law_rebalanced(keys: Seq<Seq<u8>>, ch: Seq<ByteTree>, ci: int, t: int, max: int)
    requires
        ch.len() == keys.len() + 1,
        0 <= ci < ch.len(),
    ensures
        ({
            let l = if ci == 0 {
                0
            } else {
                ci - 1
            };
            let r = if ci + 1 < ch.len() {
                ci + 1
            } else {
                ci
            };
            let m = joined(keys, ch, l, r);
            let n = target(load(ch, l, r) as int, r - l + 1, t, max);
            &&& rebalanced(keys, ch, ci, t, max) == Tree::Internal(
                keys.take(l) + part_fences(m, n) + keys.skip(r),
                ch.take(l) + parts(m, n) + ch.skip(r + 1),
            )
            &&& can_rebalance(keys, ch, ci, t, max) <==> match m {
                Tree::Leaf(e) => n == 1 || n <= e.len(),
                Tree::Internal(k, _) => n <= k.len() + 1,
            }
        }),
{
}

// Changes --------------------------------------------------------------------------------

/// A change, step by step: a leaf changes its entries; below an inner node the child on the way is
/// rebalanced with its neighbours where it has to be, and the change goes on in the child that the
/// key then belongs to, to the right of equal separators, or else in the child on the way.
pub proof fn law_edit(m: ByteTree, h: nat, k: Seq<u8>, v: Option<Seq<u8>>, t: int)
    requires
        m is Internal ==> h > 0,
    ensures
        match m {
            Tree::Leaf(e) => edit(m, h, k, v, t) == Tree::Leaf(
                match v {
                    Some(v) => put(e, k, v),
                    None => del(e, k),
                },
            ),
            Tree::Internal(keys, ch) => {
                let ci = left_route(keys, k) as int;
                let c = ch[ci].count() as int;
                if v is Some && c == 2 * t - 1 || v is None && c < t {
                    rebalanced(keys, ch, ci, t, 2 * t - 1) matches Tree::Internal(k2, c2) && {
                        let j = right_route(k2, k) as int;
                        edit(m, h, k, v, t) == Tree::Internal(
                            k2,
                            c2.update(j, edit(c2[j], (h - 1) as nat, k, v, t)),
                        )
                    }
                } else {
                    edit(m, h, k, v, t) == Tree::Internal(
                        keys,
                        ch.update(ci, edit(ch[ci], (h - 1) as nat, k, v, t)),
                    )
                }
            },
        },
{
}

/// An insertion into a whole tree: a full root is split first, a leaf into `t` and `t - 1` entries
/// with the first key of the right part between them, an inner node into `t - 1` separators on
/// each side of the middle one; the tree is then one level higher.
pub proof fn law_insertion(m: ByteTree, h: nat, k: Seq<u8>, v: Seq<u8>, t: int)
    requires
        m matches Tree::Internal(keys, ch) ==> ch.len() == keys.len() + 1,
        t >= 2,
    ensures
        m.count() != 2 * t - 1 ==> {
            &&& inserted(m, h, k, v, t) == edit(m, h, k, Some(v), t)
            &&& insert_height(m, h, t) == h
            &&& insert_start(m, t) == m
        },
        m.count() == 2 * t - 1 ==> {
            &&& insert_height(m, h, t) == h + 1
            &&& inserted(m, h, k, v, t) == edit(insert_start(m, t), h + 1, k, Some(v), t)
            &&& match m {
                Tree::Leaf(e) => insert_start(m, t) == Tree::Internal(
                    seq![e[t].0],
                    seq![Tree::Leaf(e.take(t)), Tree::Leaf(e.skip(t))],
                ),
                Tree::Internal(keys, ch) => insert_start(m, t) == Tree::Internal(
                    seq![keys[t - 1]],
                    seq![
                        Tree::Internal(keys.take(t - 1), ch.take(t)),
                        Tree::Internal(keys.skip(t), ch.skip(t)),
                    ],
                ),
            }
        },
{
}

/// A removal from a whole tree: a root that is left with one child gives way to it, and the tree is
/// then one level lower.
pub proof fn law_removal(m: ByteTree, h: nat, k: Seq<u8>, t: int)
    requires
        m is Internal ==> h > 0,
    ensures
        match edit(m, h, k, None, t) {
            Tree::Internal(keys, ch) if keys.len() == 0 => {
                &&& removed(m, h, k, t) == ch[0]
                &&& removed_height(m, h, k, t) == h - 1
            },
            _ => {
                &&& removed(m, h, k, t) == edit(m, h, k, None, t)
                &&& removed_height(m, h, k, t) == h
            },
        },
{
}

/// How many pages a change takes and gives back, step by step: one where a window is dealt out to
/// more or to fewer nodes; and two for a root that is split.
pub proof fn law_pages(m: ByteTree, h: nat, k: Seq<u8>, v: Option<Seq<u8>>, t: int)
    requires
        m is Internal ==> h > 0,
    ensures
        match m {
            Tree::Leaf(e) => edit_pages(m, h, k, v, t) == (0nat, 0nat),
            Tree::Internal(keys, ch) => {
                let ci = left_route(keys, k) as int;
                let c = ch[ci].count() as int;
                if v is Some && c == 2 * t - 1 || v is None && c < t {
                    rebalanced(keys, ch, ci, t, 2 * t - 1) matches Tree::Internal(k2, c2) && {
                        let l = window_left(ci);
                        let w = window_right(ci, ch.len() as int) - l + 1;
                        let n = target(load(ch, l, l + w - 1) as int, w, t, 2 * t - 1);
                        let below = edit_pages(
                            c2[right_route(k2, k) as int],
                            (h - 1) as nat,
                            k,
                            v,
                            t,
                        );
                        &&& n == w + 1 ==> edit_pages(m, h, k, v, t) == (below.0 + 1, below.1)
                        &&& n == w - 1 ==> edit_pages(m, h, k, v, t) == (below.0, below.1 + 1)
                        &&& n == w ==> edit_pages(m, h, k, v, t) == below
                    }
                } else {
                    edit_pages(m, h, k, v, t) == edit_pages(ch[ci], (h - 1) as nat, k, v, t)
                }
            },
        },
        v matches Some(x) ==> {
            let below = edit_pages(insert_start(m, t), insert_height(m, h, t), k, v, t);
            &&& m.count() == 2 * t - 1 ==> insert_pages(m, h, k, x, t) == (below.0 + 2, below.1)
            &&& m.count() != 2 * t - 1 ==> insert_pages(m, h, k, x, t) == below
        },
{
}

/// Whether a node fits on a page depends on its entries or separators alone, not on the pages that
/// it links to.
pub proof fn law_roomy(
    e: Seq<Entry>,
    next: Option<PageId>,
    keys: Seq<Seq<u8>>,
    ch: Seq<ByteTree>,
    ids: Seq<PageId>,
)
    requires
        ids.len() == keys.len() + 1,
    ensures
        roomy(Tree::Leaf(e)) <==> NodeView::Leaf(e, next).fits(),
        packed(Tree::Leaf(e)) <==> NodeView::Leaf(e, next).packs(),
        headed(Tree::Leaf(e)) <==> NodeView::Leaf(e, next).headed(),
        roomy(Tree::Internal(keys, ch)) <==> NodeView::Internal(keys, ids).fits(),
        packed(Tree::Internal(keys, ch)) <==> NodeView::Internal(keys, ids).packs(),
        headed(Tree::Internal(keys, ch)) <==> NodeView::Internal(keys, ids).headed(),
{
    let a = NodeView::Leaf(e, next).cells();
    assert(a =~= NodeView::Leaf(e, None).cells());
    let b = NodeView::Internal(keys, ids).cells();
    let c = page_view(Tree::Internal(keys, ch)).cells();
    crate::format::law_fits(NodeView::Internal(keys, ids));
    crate::format::law_fits(page_view(Tree::Internal(keys, ch)));
    lemma_total_alike(b, c, b.len() as int);
}

proof fn lemma_total_alike(a: Seq<Seq<u8>>, b: Seq<Seq<u8>>, n: int)
    requires
        0 <= n <= a.len(),
        a.len() == b.len(),
        forall|i: int| 0 <= i < a.len() ==> (#[trigger] a[i]).len() == (#[trigger] b[i]).len(),
    ensures
        total(a, n) == total(b, n),
    decreases n,
{
    if n > 0 {
        lemma_total_alike(a, b, n - 1);
        assert(a[n - 1].len() == b[n - 1].len());
    }
}

/// A key is no separator of a tree if no line of its outline but those of leaves holds it.
pub proof fn law_clear(m: ByteTree, k: Seq<u8>, d: nat)
    ensures
        clear(m, k) <==> forall|i: int|
            0 <= i < lines_of(m, d).len() && !(#[trigger] lines_of(m, d)[i]).leaf ==> !lines_of(
                m,
                d,
            )[i].keys.contains(k),
    decreases m,
{
    let s = lines_of(m, d);
    match m {
        Tree::Leaf(e) => {
            assert(s[0].leaf);
        },
        Tree::Internal(keys, ch) => {
            let rest = lines_of_row(ch, d + 1);
            assert(!s[0].leaf && s[0].keys == keys);
            assert forall|i: int| 0 <= i < rest.len() implies #[trigger] rest[i] == s[i + 1] by {}
            assert forall|i: int| 1 <= i < s.len() implies #[trigger] s[i] == rest[i - 1] by {}
            assert forall|i: int| 0 <= i < ch.len() implies (clear(#[trigger] ch[i], k) <==> forall|
                j: int,
            |
                0 <= j < lines_of(ch[i], d + 1).len() && !(#[trigger] lines_of(ch[i], d + 1)[j]).leaf
                    ==> !lines_of(ch[i], d + 1)[j].keys.contains(k)) by {
                law_clear(ch[i], k, d + 1);
            }
            lemma_row(ch, d + 1, |x: LineSpec<Seq<u8>>| !x.leaf && x.keys.contains(k));
            if clear(m, k) {
                assert forall|i: int| 0 <= i < s.len() && !(#[trigger] s[i]).leaf implies !s[i].keys.contains(
                    k,
                ) by {
                    if i > 0 {
                        assert(s[i] == rest[i - 1]);
                    }
                }
            }
            if forall|i: int|
                0 <= i < s.len() && !(#[trigger] s[i]).leaf ==> !s[i].keys.contains(k) {
                assert(!keys.contains(k));
                assert forall|i: int| 0 <= i < keys.len() implies #[trigger] keys[i] != k by {}
                assert forall|i: int| 0 <= i < ch.len() implies clear(#[trigger] ch[i], k) by {}
            }
        },
    }
}

/// A line occurs in the outline of a row if it occurs in that of a tree of the row.
proof fn lemma_row(ch: Seq<ByteTree>, d: nat, p: spec_fn(LineSpec<Seq<u8>>) -> bool)
    ensures
        (forall|j: int| 0 <= j < lines_of_row(ch, d).len() ==> !p(#[trigger] lines_of_row(ch, d)[j]))
            <==> forall|i: int, j: int|
            0 <= i < ch.len() && 0 <= j < lines_of(ch[i], d).len() ==> !p(
                #[trigger] lines_of(ch[i], d)[j],
            ),
    decreases ch.len(),
{
    if ch.len() > 0 {
        let a = ch.drop_last();
        let n = ch.len() - 1;
        lemma_row(a, d, p);
        let x = lines_of_row(a, d);
        let y = lines_of(ch[n], d);
        let s = lines_of_row(ch, d);
        assert(s == x + y);
        if forall|j: int| 0 <= j < s.len() ==> !p(#[trigger] s[j]) {
            assert forall|j: int| 0 <= j < x.len() implies !p(#[trigger] x[j]) by {
                assert(s[j] == x[j]);
            }
            assert forall|i: int, j: int| 0 <= i < ch.len() && 0 <= j < lines_of(ch[i], d).len() implies !p(
                #[trigger] lines_of(ch[i], d)[j],
            ) by {
                if i == n {
                    assert(s[x.len() + j] == y[j]);
                } else {
                    assert(a[i] == ch[i]);
                    assert(!p(lines_of(a[i], d)[j]));
                }
            }
        }
        if forall|i: int, j: int|
            0 <= i < ch.len() && 0 <= j < lines_of(ch[i], d).len() ==> !p(#[trigger] lines_of(ch[i], d)[j]) {
            assert forall|i: int, j: int| 0 <= i < a.len() && 0 <= j < lines_of(a[i], d).len() implies !p(
                #[trigger] lines_of(a[i], d)[j],
            ) by {
                assert(a[i] == ch[i]);
                assert(!p(lines_of(ch[i], d)[j]));
            }
            assert forall|j: int| 0 <= j < s.len() implies !p(#[trigger] s[j]) by {
                if j < x.len() {
                    assert(s[j] == x[j]);
                } else {
                    assert(s[j] == lines_of(ch[n], d)[j - x.len()]);
                }
            }
        }
    }
}

/// A lookup ends in the leaf at the end of the way that takes, at each node, the child behind the
/// separators below the key.
pub proof fn law_seek(m: ByteTree, h: nat, k: Seq<u8>)
    requires
        h > 0,
    ensures
        match m {
            Tree::Leaf(e) => seek(m, h, k) == e && seek(m, 0, k) == e,
            Tree::Internal(keys, ch) => seek(m, h, k) == seek(
                ch[left_route(keys, k) as int],
                (h - 1) as nat,
                k,
            ),
        },
{
}

/// Where a walk from a key starts: in a leaf at the place of the key; below an inner node in the child
/// that is not to the left of an equal separator, and it goes on through the children behind it.
pub proof fn law_tail(m: ByteTree, h: nat, k: Seq<u8>)
    requires
        m is Internal ==> h > 0,
    ensures
        match m {
            Tree::Leaf(e) => tail_from(m, h, k) == e.skip(place(e, k) as int),
            Tree::Internal(keys, ch) => {
                let ci = right_route(keys, k) as int;
                tail_from(m, h, k) == tail_from(ch[ci], (h - 1) as nat, k) + Tree::Internal(
                    Seq::<Seq<u8>>::empty(),
                    ch.skip(ci + 1),
                ).contents()
            },
        },
{
}

} // verus!
