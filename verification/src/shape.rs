//! Which tree an in-memory tree becomes.
use crate::balance::{rebalanced, room_made};
use crate::entries::{del, put};
use crate::node::split_point;
use crate::tree::{cut, route, with_two, Tree};
use vstd::prelude::*;

verus! {

/// Whether the right and the left neighbour of a full node can be had: one pair for each node on
/// the way down, and where there is none both can.
pub type Chances = Seq<(bool, bool)>;

/// The first pair.
pub open spec fn chance(free: Chances) -> (bool, bool) {
    if free.len() > 0 {
        free[0]
    } else {
        (true, true)
    }
}

/// The pairs for the nodes further down.
pub open spec fn further(free: Chances) -> Chances {
    if free.len() > 0 {
        free.drop_first()
    } else {
        free
    }
}

/// A node after room was made in its child `ci`, if the child was full.
pub open spec fn eased<K, V>(m: Tree<K, V>, ci: int, t: int, cap: int, f: (bool, bool)) -> Tree<K, V> {
    match m {
        Tree::Internal(keys, ch) if ch[ci].count() == 2 * t - 1 => {
            room_made(keys, ch, ci, t, cap, f.0, f.1)
        },
        _ => m,
    }
}

/// The way of `k` from an inner node.
pub open spec fn way<K: PartialOrd, V>(m: Tree<K, V>, k: K) -> int {
    match m {
        Tree::Leaf(_) => 0,
        Tree::Internal(keys, _) => route(keys, k) as int,
    }
}

/// The tree below a node after `v` was put under `k`. `cap` is what a node that takes part of a
/// full neighbour holds less than.
pub open spec fn grown<K: PartialOrd, V>(
    m: Tree<K, V>,
    h: nat,
    k: K,
    v: V,
    t: int,
    cap: int,
    free: Chances,
) -> Tree<K, V>
    decreases h,
{
    match m {
        Tree::Leaf(e) => Tree::Leaf(put(e, k, v)),
        Tree::Internal(_, _) => match eased(m, way(m, k), t, cap, chance(free)) {
            Tree::Internal(keys, ch) if h > 0 => {
                let ci = route(keys, k) as int;
                let c = grown(ch[ci], (h - 1) as nat, k, v, t, cap, further(free));
                Tree::Internal(keys, ch.update(ci, c))
            },
            _ => m,
        },
    }
}

/// A full root under a new root, in two halves.
pub open spec fn parted<K, V>(m: Tree<K, V>, t: int) -> Tree<K, V> {
    with_two(Seq::empty(), seq![m], 0, cut(m, split_point(m, t)))
}

/// A whole tree after `v` was put under `k`.
pub open spec fn inserted<K: PartialOrd, V>(
    m: Tree<K, V>,
    h: nat,
    k: K,
    v: V,
    t: int,
    cap: int,
    free: Chances,
) -> Tree<K, V> {
    if m.count() == 2 * t - 1 {
        grown(parted(m, t), h + 1, k, v, t, cap, free)
    } else {
        grown(m, h, k, v, t, cap, free)
    }
}

/// How deep the leaves of a whole tree are after an insertion.
pub open spec fn inserted_height<K, V>(m: Tree<K, V>, h: nat, t: int) -> nat {
    if m.count() == 2 * t - 1 {
        h + 1
    } else {
        h
    }
}

/// A node after its child `ci` was filled up, if the child held less than `t`.
pub open spec fn filled<K, V>(m: Tree<K, V>, ci: int, t: int) -> Tree<K, V> {
    match m {
        Tree::Internal(keys, ch) if ch[ci].count() < t => rebalanced(keys, ch, ci, t, t),
        _ => m,
    }
}

/// The tree below a node after `k` was deleted, where each child on the way was filled up once.
pub open spec fn thinned<K: PartialOrd, V>(m: Tree<K, V>, h: nat, k: K, t: int) -> Tree<K, V>
    decreases h,
{
    match m {
        Tree::Leaf(e) => Tree::Leaf(del(e, k)),
        Tree::Internal(_, _) => match filled(m, way(m, k), t) {
            Tree::Internal(keys, ch) if h > 0 => {
                let ci = route(keys, k) as int;
                Tree::Internal(keys, ch.update(ci, thinned(ch[ci], (h - 1) as nat, k, t)))
            },
            _ => m,
        },
    }
}

/// How far child `ci` is from holding `t`.
pub open spec fn lack<K, V>(ch: Seq<Tree<K, V>>, ci: int, t: int) -> nat {
    if ch[ci].count() < t {
        (t - ch[ci].count()) as nat
    } else {
        0
    }
}

/// Where child `ci` of a row is after it was filled up, when the row has become `after`.
pub open spec fn moved<K, V>(ch: Seq<Tree<K, V>>, ci: int, after: Seq<Tree<K, V>>) -> int {
    if after.len() < ch.len() && ci + 1 >= ch.len() {
        ci - 1
    } else {
        ci
    }
}

/// Filling child `ci` up has made the row shorter or the child fuller.
pub open spec fn nearer<K, V>(
    ch: Seq<Tree<K, V>>,
    ci: int,
    after: Seq<Tree<K, V>>,
    t: int,
) -> bool {
    ||| after.len() < ch.len()
    ||| after.len() == ch.len() && lack(after, moved(ch, ci, after), t) < lack(ch, ci, t)
}

/// The tree below a node after `k` was deleted, where each child on the way was filled up until
/// it held `t`.
pub open spec fn drained<K: PartialOrd, V>(m: Tree<K, V>, h: nat, k: K, t: int) -> Tree<K, V>
    decreases h, 1int, 0int, 0int,
{
    match m {
        Tree::Leaf(e) => Tree::Leaf(del(e, k)),
        Tree::Internal(keys, ch) => if h > 0 {
            drained_row(keys, ch, h, route(keys, k) as int, k, t)
        } else {
            m
        },
    }
}

/// An inner node after its child `ci` was filled up until it held `t` and `k` was deleted from
/// the child.
pub open spec fn drained_row<K: PartialOrd, V>(
    keys: Seq<K>,
    ch: Seq<Tree<K, V>>,
    h: nat,
    ci: int,
    k: K,
    t: int,
) -> Tree<K, V>
    decreases h, 0int, ch.len(), lack(ch, ci, t),
{
    if h == 0 || !(0 <= ci < ch.len()) {
        Tree::Internal(keys, ch)
    } else if ch[ci].count() >= t {
        Tree::Internal(keys, ch.update(ci, drained(ch[ci], (h - 1) as nat, k, t)))
    } else {
        match rebalanced(keys, ch, ci, t, t - 1) {
            Tree::Internal(k2, c2) if nearer(ch, ci, c2, t) => {
                drained_row(k2, c2, h, moved(ch, ci, c2), k, t)
            },
            _ => Tree::Internal(keys, ch),
        }
    }
}

/// A whole tree without a root that has one child only.
pub open spec fn trimmed<K, V>(m: Tree<K, V>) -> Tree<K, V> {
    match m {
        Tree::Internal(keys, ch) if keys.len() == 0 => ch[0],
        _ => m,
    }
}

/// How deep the leaves are when a root with one child only is gone.
pub open spec fn trimmed_height<K, V>(m: Tree<K, V>, h: nat) -> nat {
    match m {
        Tree::Internal(keys, ch) if keys.len() == 0 => (h - 1) as nat,
        _ => h,
    }
}

} // verus!
