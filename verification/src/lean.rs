//! How small the nodes of a paged tree can get.
//!
//! From degree three on, insertions, and removals of keys that no separator equals, leave every
//! leaf but the root with at least `t - 1` entries and every inner node with at least two children.
//! So no leaf is empty when a separator is taken from it.
use crate::bytes::{bytes_le, bytes_lt, lemma_bytes_order};
use crate::bytetree::{
    begin, can_deal, can_rebalance, clear, edit, joined, left_route, lemma_begin,
    lemma_clear_joined, lemma_clear_part, lemma_dealt, lemma_joined, lemma_left_route, lemma_place,
    lemma_readied, lemma_right_route, load, next_child, part, part_fences, readied, rebalanced,
    right_route, sorted_tree, target, tense, window_left, window_right, window_target, within,
    ByteTree,
};
use crate::tree::{child_hi, child_lo, Tree};
use vstd::prelude::*;

verus! {

/// The least that a node below the root holds.
pub open spec fn least(m: ByteTree, t: int) -> int {
    if m is Leaf {
        t - 1
    } else {
        1
    }
}

/// Every node below the topmost one holds at least its least.
pub open spec fn lean(m: ByteTree, h: nat, t: int) -> bool
    decreases h,
{
    m matches Tree::Internal(_, ch) ==> h > 0 && forall|i: int|
        0 <= i < ch.len() ==> (#[trigger] ch[i]).count() >= least(ch[i], t) && lean(
            ch[i],
            (h - 1) as nat,
            t,
        )
}

proof fn lemma_lean_joined(
    keys: Seq<Seq<u8>>,
    ch: Seq<ByteTree>,
    h: nat,
    lo: Option<Seq<u8>>,
    hi: Option<Seq<u8>>,
    l: int,
    r: int,
    t: int,
)
    requires
        sorted_tree(Tree::Internal(keys, ch), h, lo, hi),
        lean(Tree::Internal(keys, ch), h, t),
        0 <= l <= r < ch.len(),
    ensures
        lean(joined(keys, ch, l, r), (h - 1) as nat, t),
        load(ch, l, r) >= (r - l + 1) * (if h == 1 {
            t - 1
        } else {
            1
        }),
    decreases r - l,
{
    assert(ch[r].count() >= least(ch[r], t) && lean(ch[r], (h - 1) as nat, t));
    assert(sorted_tree(ch[r], (h - 1) as nat, child_lo(keys, r, lo), child_hi(keys, r, hi)));
    if l < r {
        lemma_lean_joined(keys, ch, h, lo, hi, l, r - 1, t);
        lemma_joined(keys, ch, h, lo, hi, l, r - 1);
        let a = joined(keys, ch, l, r - 1);
        match (a, ch[r]) {
            (Tree::Internal(k1, c1), Tree::Internal(k2, c2)) => {
                let c = c1 + c2;
                assert forall|i: int| 0 <= i < c.len() implies (#[trigger] c[i]).count() >= least(
                    c[i],
                    t,
                ) && lean(c[i], (h - 2) as nat, t) by {
                    if i < c1.len() {
                        assert(c[i] == c1[i]);
                    } else {
                        assert(c[i] == c2[i - c1.len()]);
                    }
                }
            },
            _ => {},
        }
        let x = if h == 1 {
            t - 1
        } else {
            1
        };
        assert((r - l + 1) * x == (r - l) * x + x) by (nonlinear_arith);
    } else {
        assert(load(ch, l, r - 1) == 0);
        let x = if h == 1 {
            t - 1
        } else {
            1
        };
        assert((r - l + 1) * x == x) by (nonlinear_arith)
            requires
                r == l,
        ;
    }
}

proof fn lemma_div_ge(a: int, n: int, q: int)
    by (nonlinear_arith)
    requires
        n >= 1,
        a >= n * q,
    ensures
        a / n >= q,
{
}

proof fn lemma_lean_part(
    m: ByteTree,
    n: int,
    i: int,
    h: nat,
    lo: Option<Seq<u8>>,
    hi: Option<Seq<u8>>,
    t: int,
)
    requires
        sorted_tree(m, h, lo, hi),
        lean(m, h, t),
        1 <= n,
        can_deal(m, n),
        0 <= i < n,
    ensures
        lean(part(m, n, i), h, t),
        part(m, n, i) is Leaf == m is Leaf,
        part(m, n, i).count() >= (match m {
            Tree::Leaf(e) => e.len() as int,
            Tree::Internal(keys, _) => keys.len() - (n - 1),
        }) / n,
{
    match m {
        Tree::Leaf(e) => {
            lemma_begin(e.len() as int, n, i);
            lemma_begin(e.len() as int, n, i + 1);
        },
        Tree::Internal(keys, ch) => {
            let s = keys.len() - (n - 1);
            lemma_begin(s, n, i);
            lemma_begin(s, n, i + 1);
            let a = begin(s, n, i) + i;
            let b = begin(s, n, i + 1) + i;
            let c = ch.subrange(a, b + 1);
            assert forall|j: int| 0 <= j < c.len() implies (#[trigger] c[j]).count() >= least(c[j], t)
                && lean(c[j], (h - 1) as nat, t) by {
                assert(c[j] == ch[a + j]);
            }
        },
    }
}

/// The arithmetic of dealing a window out: every part of it is large enough.
proof fn lemma_window_shares(load: int, w: int, n: int, t: int, leaves: bool)
    requires
        t >= 3,
        2 <= w <= 3,
        n == target(load, w, t, 2 * t - 1),
        load >= w * (if leaves {
            t - 1
        } else {
            1
        }),
    ensures
        1 <= n <= w + 1,
        leaves ==> n <= load && load / n >= t,
        !leaves ==> n - 1 <= load + w - 1 && (load + w - 1 - (n - 1)) / n >= 2,
        load >= 2 * t ==> n >= 2,
{
    let max = 2 * t - 1;
    assert(w * (max - 1) == if w == 2 {
        2 * (max - 1)
    } else {
        3 * (max - 1)
    });
    assert(w * t == if w == 2 {
        2 * t
    } else {
        3 * t
    });
    assert(w * (t - 1) == if w == 2 {
        2 * (t - 1)
    } else {
        3 * (t - 1)
    });
    let q = if leaves {
        t
    } else {
        2
    };
    let a = if leaves {
        load
    } else {
        load + w - n
    };
    assert(n == w + 1 || n == w || n == w - 1);
    if n == 1 {
        assert(n * q == q) by (nonlinear_arith)
            requires
                n == 1,
        ;
    } else if n == 2 {
        assert(n * q == 2 * q) by (nonlinear_arith)
            requires
                n == 2,
        ;
    } else if n == 3 {
        assert(n * q == 3 * q) by (nonlinear_arith)
            requires
                n == 3,
        ;
    } else {
        assert(n * q == 4 * q) by (nonlinear_arith)
            requires
                n == 4,
        ;
    }
    assert(a >= n * q);
    lemma_div_ge(a, n, q);
}

/// Rebalancing a window keeps all nodes large enough, and gives those of the window one to spare.
proof fn lemma_lean_window(
    keys: Seq<Seq<u8>>,
    ch: Seq<ByteTree>,
    h: nat,
    lo: Option<Seq<u8>>,
    hi: Option<Seq<u8>>,
    ci: int,
    t: int,
)
    requires
        sorted_tree(Tree::Internal(keys, ch), h, lo, hi),
        lean(Tree::Internal(keys, ch), h, t),
        t >= 3,
        keys.len() >= 1,
        0 <= ci < ch.len(),
    ensures
        can_rebalance(keys, ch, ci, t, 2 * t - 1),
        rebalanced(keys, ch, ci, t, 2 * t - 1) matches Tree::Internal(k2, c2) && {
            let l = window_left(ci);
            let n = window_target(ch, ci, t, 2 * t - 1);
            &&& lean(Tree::Internal(k2, c2), h, t)
            &&& k2.len() >= keys.len() - 1
            &&& ch[ci].count() >= 2 * t - 1 ==> k2.len() >= 1
            &&& c2.len() == k2.len() + 1
            &&& forall|i: int| l <= i < l + n ==> (#[trigger] c2[i]).count() >= least(c2[i], t) + 1
        },
{
    let l = window_left(ci);
    let r = window_right(ci, ch.len() as int);
    let w = r - l + 1;
    let n = window_target(ch, ci, t, 2 * t - 1);
    let m = joined(keys, ch, l, r);
    let lo1 = child_lo(keys, l, lo);
    let hi1 = child_hi(keys, r, hi);
    lemma_joined(keys, ch, h, lo, hi, l, r);
    lemma_lean_joined(keys, ch, h, lo, hi, l, r, t);
    lemma_window_shares(load(ch, l, r) as int, w, n, t, h == 1);
    assert(can_deal(m, n));
    lemma_dealt(keys, ch, h, lo, hi, l, r, n);
    if ch[ci].count() >= 2 * t - 1 && w == 2 {
        assert(ch[l].count() >= least(ch[l], t));
        assert(ch[r].count() >= least(ch[r], t));
        lemma_load_two(ch, l, ci, 1, 2 * t - 1);
    }
    let c2 = rebalanced(keys, ch, ci, t, 2 * t - 1)->Internal_1;
    assert forall|i: int| 0 <= i < c2.len() implies (#[trigger] c2[i]).count() >= least(c2[i], t)
        && lean(c2[i], (h - 1) as nat, t) && (l <= i < l + n ==> c2[i].count() >= least(c2[i], t) + 1) by {
        if i < l {
            assert(c2[i] == ch[i]);
        } else if i < l + n {
            assert(c2[i] == part(m, n, i - l));
            lemma_lean_part(m, n, i - l, (h - 1) as nat, lo1, hi1, t);
        } else {
            assert(c2[i] == ch[i - l - n + r + 1]);
        }
    }
}

/// Making the child on the way ready keeps all nodes large enough; before an entry is taken out
/// the child has one to spare.
pub proof fn lemma_lean_readied(
    keys: Seq<Seq<u8>>,
    ch: Seq<ByteTree>,
    h: nat,
    lo: Option<Seq<u8>>,
    hi: Option<Seq<u8>>,
    k: Seq<u8>,
    t: int,
    adds: bool,
)
    requires
        sorted_tree(Tree::Internal(keys, ch), h, lo, hi),
        within(lo, k, hi),
        lean(Tree::Internal(keys, ch), h, t),
        t >= 3,
        keys.len() >= 1,
        adds || clear(Tree::Internal(keys, ch), k),
    ensures
        tense(ch[left_route(keys, k) as int].count() as int, t, adds) ==> can_rebalance(
            keys,
            ch,
            left_route(keys, k) as int,
            t,
            2 * t - 1,
        ),
        readied(keys, ch, k, t, adds) matches Tree::Internal(k2, c2) && {
            let c = c2[next_child(keys, ch, k, t, adds)];
            &&& lean(Tree::Internal(k2, c2), h, t)
            &&& k2.len() >= keys.len() - 1
            &&& adds ==> k2.len() >= 1
            &&& c.count() >= least(c, t)
            &&& lean(c, (h - 1) as nat, t)
            &&& !adds ==> c.count() >= least(c, t) + 1
        },
{
    lemma_left_route(keys, k);
    let ci = left_route(keys, k) as int;
    assert(ch[ci].count() >= least(ch[ci], t) && lean(ch[ci], (h - 1) as nat, t));
    if tense(ch[ci].count() as int, t, adds) {
        lemma_lean_window(keys, ch, h, lo, hi, ci, t);
        let k2 = rebalanced(keys, ch, ci, t, 2 * t - 1)->Internal_0;
        let c2 = rebalanced(keys, ch, ci, t, 2 * t - 1)->Internal_1;
        lemma_right_route(k2, k);
        let cj = next_child(keys, ch, k, t, adds);
        assert(c2[cj].count() >= least(c2[cj], t) && lean(c2[cj], (h - 1) as nat, t));
        if !adds {
            lemma_next_in_window(keys, ch, h, lo, hi, k, t);
        }
    }
}

/// Past a window that was rebalanced the way to a key that no separator equals leads into it.
proof fn lemma_next_in_window(
    keys: Seq<Seq<u8>>,
    ch: Seq<ByteTree>,
    h: nat,
    lo: Option<Seq<u8>>,
    hi: Option<Seq<u8>>,
    k: Seq<u8>,
    t: int,
)
    requires
        sorted_tree(Tree::Internal(keys, ch), h, lo, hi),
        clear(Tree::Internal(keys, ch), k),
        t >= 2,
        tense(ch[left_route(keys, k) as int].count() as int, t, false),
        can_rebalance(keys, ch, left_route(keys, k) as int, t, 2 * t - 1),
    ensures
        ({
            let ci = left_route(keys, k) as int;
            let l = window_left(ci);
            l <= next_child(keys, ch, k, t, false) < l + window_target(ch, ci, t, 2 * t - 1)
        }),
{
    lemma_bytes_order();
    lemma_left_route(keys, k);
    let ci = left_route(keys, k) as int;
    let l = window_left(ci);
    let r = window_right(ci, ch.len() as int);
    let n = window_target(ch, ci, t, 2 * t - 1);
    let m = joined(keys, ch, l, r);
    let f = part_fences(m, n);
    let k2 = keys.take(l) + f + keys.skip(r);
    let cj = right_route(k2, k) as int;
    lemma_right_route(k2, k);
    assert(next_child(keys, ch, k, t, false) == cj);
    if cj < l {
        assert(k2[cj] == keys[cj]);
        assert(bytes_lt(keys[cj], k));
    }
    if r < keys.len() {
        assert(k2[l + n - 1] == keys[r]);
        assert(keys[r] != k);
        assert(ci == r || bytes_le(keys[ci], keys[r]));
        if cj > l + n - 1 {
            assert(bytes_le(k2[l + n - 1], k));
        }
    }
}

/// Two nodes, one of them full.
proof fn lemma_load_two(ch: Seq<ByteTree>, l: int, ci: int, x: int, full: int)
    requires
        0 <= l,
        l + 1 < ch.len(),
        ci == l || ci == l + 1,
        ch[ci].count() >= full,
        ch[l].count() >= x,
        ch[l + 1].count() >= x,
    ensures
        load(ch, l, l + 1) >= full + x,
{
    assert(load(ch, l, l - 1) == 0);
    assert(load(ch, l, l) == ch[l].count());
}

/// The change runs into no leaf that is empty where a separator is needed.
pub open spec fn deals(m: ByteTree, h: nat, k: Seq<u8>, t: int, adds: bool) -> bool
    decreases h,
{
    m matches Tree::Internal(keys, ch) ==> {
        let ci = left_route(keys, k) as int;
        &&& tense(ch[ci].count() as int, t, adds) ==> can_rebalance(keys, ch, ci, t, 2 * t - 1)
        &&& match readied(keys, ch, k, t, adds) {
            Tree::Leaf(_) => false,
            Tree::Internal(_, c2) => h > 0 && deals(
                c2[next_child(keys, ch, k, t, adds)],
                (h - 1) as nat,
                k,
                t,
                adds,
            ),
        }
    }
}

/// From degree three on, adding an entry, and taking one out whose key no separator equals, runs
/// into no empty leaf and leaves every node large enough.
pub proof fn lemma_lean_edit(
    m: ByteTree,
    h: nat,
    lo: Option<Seq<u8>>,
    hi: Option<Seq<u8>>,
    k: Seq<u8>,
    v: Option<Seq<u8>>,
    t: int,
)
    requires
        sorted_tree(m, h, lo, hi),
        within(lo, k, hi),
        lean(m, h, t),
        t >= 3,
        m is Internal ==> m.count() >= 1,
        v is Some || clear(m, k),
    ensures
        deals(m, h, k, t, v is Some),
        lean(edit(m, h, k, v, t), h, t),
        edit(m, h, k, v, t) is Leaf == m is Leaf,
        v is Some ==> edit(m, h, k, v, t).count() >= (if m is Leaf {
            m.count()
        } else {
            1
        }),
        v is None ==> edit(m, h, k, v, t).count() >= m.count() - 1,
    decreases h,
{
    match m {
        Tree::Leaf(e) => {
            lemma_place(e, k);
        },
        Tree::Internal(keys, ch) => {
            let adds = v is Some;
            lemma_lean_readied(keys, ch, h, lo, hi, k, t, adds);
            lemma_readied(keys, ch, h, lo, hi, k, t, adds);
            if let Tree::Internal(k2, c2) = readied(keys, ch, k, t, adds) {
                let ci = next_child(keys, ch, k, t, adds);
                let lo1 = child_lo(k2, ci, lo);
                let hi1 = child_hi(k2, ci, hi);
                let c = c2[ci];
                if !adds {
                    lemma_clear_child(keys, ch, h, lo, hi, k, t);
                }
                lemma_lean_edit(c, (h - 1) as nat, lo1, hi1, k, v, t);
                let d = edit(c, (h - 1) as nat, k, v, t);
                let c3 = c2.update(ci, d);
                assert forall|i: int| 0 <= i < c3.len() implies (#[trigger] c3[i]).count() >= least(
                    c3[i],
                    t,
                ) && lean(c3[i], (h - 1) as nat, t) by {
                    if i != ci {
                        assert(c3[i] == c2[i]);
                    }
                }
            }
        },
    }
}

/// Below the child on the way no separator equals the key either.
proof fn lemma_clear_child(
    keys: Seq<Seq<u8>>,
    ch: Seq<ByteTree>,
    h: nat,
    lo: Option<Seq<u8>>,
    hi: Option<Seq<u8>>,
    k: Seq<u8>,
    t: int,
)
    requires
        sorted_tree(Tree::Internal(keys, ch), h, lo, hi),
        clear(Tree::Internal(keys, ch), k),
        t >= 2,
        tense(ch[left_route(keys, k) as int].count() as int, t, false) ==> can_rebalance(
            keys,
            ch,
            left_route(keys, k) as int,
            t,
            2 * t - 1,
        ),
    ensures
        readied(keys, ch, k, t, false) matches Tree::Internal(_, c2) && clear(
            c2[next_child(keys, ch, k, t, false)],
            k,
        ),
{
    lemma_left_route(keys, k);
    let ci = left_route(keys, k) as int;
    assert(clear(ch[ci], k));
    if tense(ch[ci].count() as int, t, false) {
        let l = window_left(ci);
        let r = window_right(ci, ch.len() as int);
        let n = window_target(ch, ci, t, 2 * t - 1);
        let m = joined(keys, ch, l, r);
        lemma_next_in_window(keys, ch, h, lo, hi, k, t);
        lemma_joined(keys, ch, h, lo, hi, l, r);
        lemma_clear_joined(keys, ch, h, lo, hi, l, r, k);
        let cj = next_child(keys, ch, k, t, false);
        let c2 = rebalanced(keys, ch, ci, t, 2 * t - 1)->Internal_1;
        assert(c2[cj] == part(m, n, cj - l));
        lemma_clear_part(
            m,
            n,
            cj - l,
            (h - 1) as nat,
            child_lo(keys, l, lo),
            child_hi(keys, r, hi),
            k,
        );
    }
}

} // verus!
