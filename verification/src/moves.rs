//! What reshaping a tree does to its entries, separators and counts.
use crate::balance::{fits_size, rebalanced, room_made, sized};
use crate::btree::steady;
use crate::cbtre::balanced;
use crate::entries::{del, put, sorted};
use crate::node::{pairs, split_point, trees, Internal, Leaf, LeafEntry, Node};
use crate::order::lt;
use crate::outline::{keys_of, lines_of, lines_of_row, views, Line, LineSpec};
use crate::shape::{
    drained, drained_row, grown, inserted, inserted_height, parted, thinned, trimmed,
    trimmed_height, Chances,
};
use crate::tree::{
    child_hi, child_lo, cut, join, lemma_flat_concat, lemma_flat_one, route, with_one, with_pair,
    with_two, Tree,
};
use vstd::prelude::*;

verus! {

/// The entries of a tree are those of its leaves, from left to right.
pub proof fn law_contents<K, V>(
    e: Seq<(K, V)>,
    keys: Seq<K>,
    a: Seq<Tree<K, V>>,
    c: Tree<K, V>,
    b: Seq<Tree<K, V>>,
)
    ensures
        Tree::Leaf(e).contents() == e,
        Tree::Leaf(e).count() == e.len(),
        Tree::Internal(keys, a).count() == keys.len(),
        Tree::Internal(keys, Seq::<Tree<K, V>>::empty()).contents() == Seq::<(K, V)>::empty(),
        Tree::Internal(keys, seq![c]).contents() == c.contents(),
        Tree::Internal(keys, a + b).contents() == Tree::Internal(keys, a).contents()
            + Tree::Internal(keys, b).contents(),
{
    lemma_flat_concat(a, b);
    lemma_flat_one(c);
}

/// A tree in mathematical terms holds what the fields of its nodes hold.
pub proof fn law_node_views<K: Ord + Clone, V>(
    s: Seq<LeafEntry<K, V>>,
    leaf: Leaf<K, V>,
    inner: Internal<K, V>,
    i: int,
)
    ensures
        pairs(s).len() == s.len(),
        0 <= i < s.len() ==> pairs(s)[i] == (s[i].key, s[i].value),
        Node::Leaf(leaf).tree() == Tree::Leaf(pairs(leaf.entries@)),
        Node::Internal(inner).tree() == Tree::Internal(inner.keys@, trees(inner.children@)),
        trees(inner.children@).len() == inner.children@.len(),
        0 <= i < inner.children@.len() ==> trees(inner.children@)[i] == (*inner.children@[i]).tree(),
{
}

/// Neighbours that are joined hold what both held, an inner node also the separator that stood
/// between them; and a node that is cut in two holds in its parts what it held, the left part as
/// much as was asked for. The separator of two leaves is the first key of the right one.
pub proof fn law_shift<K, V>(l: Tree<K, V>, s: K, r: Tree<K, V>, n: int)
    requires
        l is Leaf <==> r is Leaf,
        l matches Tree::Internal(keys, ch) ==> ch.len() == keys.len() + 1,
        r matches Tree::Internal(keys, ch) ==> ch.len() == keys.len() + 1,
        0 <= n,
        l is Leaf ==> n < l.count() + r.count(),
        l is Internal ==> n <= l.count() + r.count(),
    ensures
        match (l, r, join(l, s, r)) {
            (Tree::Leaf(a), Tree::Leaf(b), Tree::Leaf(m)) => m == a + b,
            (Tree::Internal(a, c), Tree::Internal(b, d), Tree::Internal(m, e)) => {
                &&& m == a + seq![s] + b
                &&& e == c + d
            },
            _ => false,
        },
        match (join(l, s, r), cut(join(l, s, r), n)) {
            (Tree::Leaf(m), (Tree::Leaf(x), t, Tree::Leaf(y))) => {
                &&& x.len() == n
                &&& x + y == m
                &&& t == y[0].0
            },
            (Tree::Internal(m, e), (Tree::Internal(x, f), t, Tree::Internal(y, g))) => {
                &&& x.len() == n && f.len() == n + 1
                &&& x + seq![t] + y == m
                &&& f + g == e
            },
            _ => false,
        },
        join(l, s, r).contents() == l.contents() + r.contents(),
{
    match (l, r) {
        (Tree::Leaf(a), Tree::Leaf(b)) => {
            assert((a + b).take(n) + (a + b).skip(n) =~= a + b);
        },
        (Tree::Internal(a, c), Tree::Internal(b, d)) => {
            lemma_flat_concat(c, d);
            let m = a.push(s) + b;
            assert(m =~= a + seq![s] + b);
            assert(m.take(n) + seq![m[n]] + m.skip(n + 1) =~= m);
            assert((c + d).take(n + 1) + (c + d).skip(n + 1) =~= c + d);
        },
        _ => {},
    }
}

/// A full node, one with `2 * t - 1`, is split in the middle: two leaves of `t` and `t - 1` entries
/// with the first key of the right one between them, or two inner nodes of `t - 1` separators
/// each, with the middle one between them.
pub proof fn law_split<K, V>(m: Tree<K, V>, t: int)
    requires
        m matches Tree::Internal(keys, ch) ==> ch.len() == keys.len() + 1,
        t >= 2,
        m.count() == 2 * t - 1,
    ensures
        match (m, cut(m, split_point(m, t))) {
            (Tree::Leaf(e), (Tree::Leaf(x), s, Tree::Leaf(y))) => {
                &&& x.len() == t && y.len() == t - 1
                &&& x + y == e
                &&& s == y[0].0
            },
            (Tree::Internal(k, c), (Tree::Internal(x, f), s, Tree::Internal(y, g))) => {
                &&& x.len() == t - 1 && y.len() == t - 1
                &&& f.len() == t && g.len() == t
                &&& x + seq![s] + y == k
                &&& f + g == c
            },
            _ => false,
        },
        ({
            let (x, s, y) = cut(m, split_point(m, t));
            parted(m, t) == Tree::Internal(seq![s], seq![x, y])
        }),
{
    match m {
        Tree::Leaf(e) => {
            assert(e.take(t) + e.skip(t) =~= e);
        },
        Tree::Internal(k, c) => {
            assert(k.take(t - 1) + seq![k[t - 1]] + k.skip(t) =~= k);
            assert(c.take(t) + c.skip(t) =~= c);
        },
    }
    let (x, s, y) = cut(m, split_point(m, t));
    assert(Seq::<K>::empty().insert(0, s) =~= seq![s]);
    assert(seq![m].update(0, x).insert(1, y) =~= seq![x, y]);
}

/// Room in a full child: the right neighbour takes what it needs to hold as much as the child or
/// one more; if it cannot be had, the left one takes what it needs to hold as much as the child
/// or one more; if neither can, the child is split.
pub proof fn law_room<K, V>(
    keys: Seq<K>,
    ch: Seq<Tree<K, V>>,
    ci: int,
    t: int,
    cap: int,
    right_free: bool,
    left_free: bool,
)
    requires
        ch.len() == keys.len() + 1,
        0 <= ci < ch.len(),
        t >= 2,
        ch[ci].count() == 2 * t - 1,
    ensures
        ({
            let m = room_made(keys, ch, ci, t, cap, right_free, left_free);
            if right_free && ci + 1 < ch.len() && ch[ci + 1].count() < cap {
                let n = (ch[ci].count() + ch[ci + 1].count()) as int / 2;
                let (x, s, y) = cut(join(ch[ci], keys[ci], ch[ci + 1]), n);
                m == Tree::Internal(
                    keys.take(ci) + seq![s] + keys.skip(ci + 1),
                    ch.take(ci) + seq![x, y] + ch.skip(ci + 2),
                )
            } else if left_free && 0 < ci && ch[ci - 1].count() < cap {
                let n = (ch[ci - 1].count() + ch[ci].count() + 1) as int / 2;
                let (x, s, y) = cut(join(ch[ci - 1], keys[ci - 1], ch[ci]), n);
                m == Tree::Internal(
                    keys.take(ci - 1) + seq![s] + keys.skip(ci),
                    ch.take(ci - 1) + seq![x, y] + ch.skip(ci + 1),
                )
            } else {
                let n = if ch[ci] is Leaf {
                    t
                } else {
                    t - 1
                };
                let (x, s, y) = cut(ch[ci], n);
                m == Tree::Internal(
                    keys.take(ci) + seq![s] + keys.skip(ci),
                    ch.take(ci) + seq![x, y] + ch.skip(ci + 1),
                )
            }
        }),
{
    lemma_with(keys, ch);
}

/// What replacing two neighbours, splitting one child or joining two does to a row.
proof fn lemma_with<K, V>(keys: Seq<K>, ch: Seq<Tree<K, V>>)
    requires
        ch.len() == keys.len() + 1,
    ensures
        forall|i: int, x: (Tree<K, V>, K, Tree<K, V>)|
            0 <= i < keys.len() ==> #[trigger] with_pair(keys, ch, i, x) == Tree::Internal(
                keys.take(i) + seq![x.1] + keys.skip(i + 1),
                ch.take(i) + seq![x.0, x.2] + ch.skip(i + 2),
            ),
        forall|i: int, x: (Tree<K, V>, K, Tree<K, V>)|
            0 <= i < ch.len() ==> #[trigger] with_two(keys, ch, i, x) == Tree::Internal(
                keys.take(i) + seq![x.1] + keys.skip(i),
                ch.take(i) + seq![x.0, x.2] + ch.skip(i + 1),
            ),
        forall|i: int, m: Tree<K, V>|
            0 <= i < keys.len() ==> #[trigger] with_one(keys, ch, i, m) == Tree::Internal(
                keys.take(i) + keys.skip(i + 1),
                ch.take(i) + seq![m] + ch.skip(i + 2),
            ),
{
    assert forall|i: int, x: (Tree<K, V>, K, Tree<K, V>)| 0 <= i < keys.len() implies #[trigger] with_pair(
        keys,
        ch,
        i,
        x,
    ) == Tree::Internal(
        keys.take(i) + seq![x.1] + keys.skip(i + 1),
        ch.take(i) + seq![x.0, x.2] + ch.skip(i + 2),
    ) by {
        assert(keys.update(i, x.1) =~= keys.take(i) + seq![x.1] + keys.skip(i + 1));
        assert(ch.update(i, x.0).update(i + 1, x.2) =~= ch.take(i) + seq![x.0, x.2] + ch.skip(i + 2));
    }
    assert forall|i: int, x: (Tree<K, V>, K, Tree<K, V>)| 0 <= i < ch.len() implies #[trigger] with_two(
        keys,
        ch,
        i,
        x,
    ) == Tree::Internal(
        keys.take(i) + seq![x.1] + keys.skip(i),
        ch.take(i) + seq![x.0, x.2] + ch.skip(i + 1),
    ) by {
        assert(keys.insert(i, x.1) =~= keys.take(i) + seq![x.1] + keys.skip(i));
        assert(ch.update(i, x.0).insert(i + 1, x.2) =~= ch.take(i) + seq![x.0, x.2] + ch.skip(i + 1));
    }
    assert forall|i: int, m: Tree<K, V>| 0 <= i < keys.len() implies #[trigger] with_one(
        keys,
        ch,
        i,
        m,
    ) == Tree::Internal(
        keys.take(i) + keys.skip(i + 1),
        ch.take(i) + seq![m] + ch.skip(i + 2),
    ) by {
        assert(keys.remove(i) =~= keys.take(i) + keys.skip(i + 1));
        assert(ch.remove(i + 1).update(i, m) =~= ch.take(i) + seq![m] + ch.skip(i + 2));
    }
}

/// Filling a child up: a right neighbour with at least `t` gives its first entry or child away, else
/// a left neighbour with at least `left_min` its last; else the child is joined with its right
/// neighbour, or with the left one where it is the last child.
pub proof fn law_fill<K, V>(keys: Seq<K>, ch: Seq<Tree<K, V>>, ci: int, t: int, left_min: int)
    requires
        ch.len() == keys.len() + 1,
        keys.len() >= 1,
        0 <= ci < ch.len(),
    ensures
        ({
            let m = rebalanced(keys, ch, ci, t, left_min);
            if ci + 1 < ch.len() && ch[ci + 1].count() >= t {
                let (x, s, y) = cut(
                    join(ch[ci], keys[ci], ch[ci + 1]),
                    ch[ci].count() as int + 1,
                );
                m == Tree::Internal(
                    keys.take(ci) + seq![s] + keys.skip(ci + 1),
                    ch.take(ci) + seq![x, y] + ch.skip(ci + 2),
                )
            } else if 0 < ci && ch[ci - 1].count() >= left_min {
                let (x, s, y) = cut(
                    join(ch[ci - 1], keys[ci - 1], ch[ci]),
                    ch[ci - 1].count() as int - 1,
                );
                m == Tree::Internal(
                    keys.take(ci - 1) + seq![s] + keys.skip(ci),
                    ch.take(ci - 1) + seq![x, y] + ch.skip(ci + 1),
                )
            } else if ci + 1 < ch.len() {
                m == Tree::Internal(
                    keys.take(ci) + keys.skip(ci + 1),
                    ch.take(ci) + seq![join(ch[ci], keys[ci], ch[ci + 1])] + ch.skip(ci + 2),
                )
            } else {
                m == Tree::Internal(
                    keys.take(ci - 1) + keys.skip(ci),
                    ch.take(ci - 1) + seq![join(ch[ci - 1], keys[ci - 1], ch[ci])] + ch.skip(ci + 1),
                )
            }
        }),
{
    lemma_with(keys, ch);
}

/// Putting a value under a key, step by step: in a leaf the entry is put where it belongs; below an
/// inner node room is made first in the child on the way if it is full, and then the value goes
/// into the child on the way. Other children stay.
pub proof fn law_put_below<K: PartialOrd, V>(
    m: Tree<K, V>,
    h: nat,
    k: K,
    v: V,
    t: int,
    cap: int,
    free: Chances,
)
    requires
        m is Internal ==> h > 0,
    ensures
        match m {
            Tree::Leaf(e) => grown(m, h, k, v, t, cap, free) == Tree::Leaf(put(e, k, v)),
            Tree::Internal(keys, ch) => {
                let ci = route(keys, k) as int;
                let f = if free.len() > 0 {
                    free[0]
                } else {
                    (true, true)
                };
                let m2 = if ch[ci].count() == 2 * t - 1 {
                    room_made(keys, ch, ci, t, cap, f.0, f.1)
                } else {
                    m
                };
                m2 matches Tree::Internal(k2, c2) ==> {
                    let j = route(k2, k) as int;
                    let below = if free.len() > 0 {
                        free.skip(1)
                    } else {
                        free
                    };
                    grown(m, h, k, v, t, cap, free) == Tree::Internal(
                        k2,
                        c2.update(j, grown(c2[j], (h - 1) as nat, k, v, t, cap, below)),
                    )
                }
            },
        },
{
    if free.len() > 0 {
        assert(free.drop_first() =~= free.skip(1));
    }
}

/// Putting a value into a whole tree: a full root is split first, which makes the tree one level
/// higher.
pub proof fn law_put_root<K: PartialOrd, V>(
    m: Tree<K, V>,
    h: nat,
    k: K,
    v: V,
    t: int,
    cap: int,
    free: Chances,
)
    ensures
        m.count() == 2 * t - 1 ==> {
            &&& inserted(m, h, k, v, t, cap, free) == grown(parted(m, t), h + 1, k, v, t, cap, free)
            &&& inserted_height(m, h, t) == h + 1
        },
        m.count() != 2 * t - 1 ==> {
            &&& inserted(m, h, k, v, t, cap, free) == grown(m, h, k, v, t, cap, free)
            &&& inserted_height(m, h, t) == h
        },
{
}

/// Deleting a key, step by step, where a child that holds less than `t` is filled up once.
pub proof fn law_del_below<K: PartialOrd, V>(m: Tree<K, V>, h: nat, k: K, t: int)
    requires
        m is Internal ==> h > 0,
    ensures
        match m {
            Tree::Leaf(e) => thinned(m, h, k, t) == Tree::Leaf(del(e, k)),
            Tree::Internal(keys, ch) => {
                let ci = route(keys, k) as int;
                let m2 = if ch[ci].count() < t {
                    rebalanced(keys, ch, ci, t, t)
                } else {
                    m
                };
                m2 matches Tree::Internal(k2, c2) ==> {
                    let j = route(k2, k) as int;
                    thinned(m, h, k, t) == Tree::Internal(
                        k2,
                        c2.update(j, thinned(c2[j], (h - 1) as nat, k, t)),
                    )
                }
            },
        },
{
}

/// Deleting a key, step by step, where the child on the way is filled up until it holds `t`: it is
/// deleted from a child that does; one that holds less is filled up by a step, as long as a step
/// makes the row shorter or the child fuller.
pub proof fn law_drain<K: PartialOrd, V>(
    keys: Seq<K>,
    ch: Seq<Tree<K, V>>,
    h: nat,
    ci: int,
    k: K,
    t: int,
)
    requires
        h > 0,
        ch.len() == keys.len() + 1,
        keys.len() >= 1,
        0 <= ci < ch.len(),
    ensures
        drained(Tree::Internal(keys, ch), h, k, t) == drained_row(
            keys,
            ch,
            h,
            route(keys, k) as int,
            k,
            t,
        ),
        forall|e: Seq<(K, V)>, g: nat| #[trigger]
            drained(Tree::Leaf(e), g, k, t) == Tree::Leaf(del(e, k)),
        ch[ci].count() >= t ==> drained_row(keys, ch, h, ci, k, t) == Tree::Internal(
            keys,
            ch.update(ci, drained(ch[ci], (h - 1) as nat, k, t)),
        ),
        ch[ci].count() < t ==> match rebalanced(keys, ch, ci, t, t - 1) {
            Tree::Internal(k2, c2) => {
                let j = if c2.len() < ch.len() && ci + 1 == ch.len() {
                    ci - 1
                } else {
                    ci
                };
                c2.len() < ch.len() || (c2.len() == ch.len() && ch[ci].count() < c2[ci].count())
                    ==> drained_row(keys, ch, h, ci, k, t) == drained_row(k2, c2, h, j, k, t)
            },
            Tree::Leaf(_) => true,
        },
{
}

/// A root with one child only gives way to the child.
pub proof fn law_trim<K, V>(m: Tree<K, V>, h: nat)
    requires
        m matches Tree::Internal(keys, ch) ==> ch.len() == keys.len() + 1,
        m is Internal ==> h > 0,
    ensures
        match m {
            Tree::Internal(keys, ch) if ch.len() == 1 => trimmed(m) == ch[0] && trimmed_height(m, h) + 1 == h,
            _ => trimmed(m) == m && trimmed_height(m, h) == h,
        },
        trimmed(m).contents() == m.contents(),
{
    if let Tree::Internal(keys, ch) = m {
        if ch.len() == 1 {
            lemma_flat_one(ch[0]);
            assert(ch =~= seq![ch[0]]);
        }
    }
}

/// The outline of a tree: a line for a leaf, with its keys; for an inner node a line with its
/// separators, and then the lines of its children from left to right, one level deeper.
pub proof fn law_outline<K, V>(
    e: Seq<(K, V)>,
    keys: Seq<K>,
    a: Seq<Tree<K, V>>,
    c: Tree<K, V>,
    d: nat,
)
    ensures
        lines_of(Tree::Leaf(e), d).len() == 1,
        lines_of(Tree::Leaf(e), d)[0].depth == d,
        lines_of(Tree::Leaf(e), d)[0].leaf,
        lines_of(Tree::Leaf(e), d)[0].keys == e.map_values(|p: (K, V)| p.0),
        lines_of(Tree::Internal(keys, Seq::<Tree<K, V>>::empty()), d) == seq![
            LineSpec { depth: d, leaf: false, keys: keys },
        ],
        lines_of(Tree::Internal(keys, a.push(c)), d) == lines_of(Tree::Internal(keys, a), d) + lines_of(
            c,
            d + 1,
        ),
{
    assert(keys_of(e) =~= e.map_values(|p: (K, V)| p.0));
    assert(a.push(c).drop_last() =~= a);
    let one = seq![LineSpec { depth: d, leaf: false, keys: keys }];
    assert(one + lines_of_row(Seq::<Tree<K, V>>::empty(), d + 1) =~= one);
    assert(one + (lines_of_row(a, d + 1) + lines_of(c, d + 1)) =~= one + lines_of_row(a, d + 1)
        + lines_of(c, d + 1));
}

/// A line in mathematical terms holds what its fields hold.
pub proof fn law_line_views<'a, K>(s: Seq<Line<'a, K>>, i: int, j: int)
    requires
        0 <= i < s.len(),
        0 <= j < s[i].keys@.len(),
    ensures
        views(s).len() == s.len(),
        views(s)[i].depth == s[i].depth,
        views(s)[i].leaf == s[i].leaf,
        views(s)[i].keys.len() == s[i].keys@.len(),
        views(s)[i].keys[j] == *s[i].keys@[j],
{
}

// Search trees ---------------------------------------------------------------------------

/// A search tree of height `h`: a leaf of height zero whose keys rise from `lo` on and stay below
/// `hi`; or an inner node with one child more than separators, which do not fall, whose children
/// are search trees one level lower between the separators on their left and on their right.
pub proof fn law_search_tree<K: PartialOrd, V>(m: Tree<K, V>, h: nat, lo: Option<K>, hi: Option<K>)
    ensures
        m.wf(h, lo, hi) <==> match m {
            Tree::Leaf(e) => {
                &&& h == 0
                &&& sorted(e)
                &&& lo matches Some(a) ==> forall|i: int| 0 <= i < e.len() ==> !lt((#[trigger] e[i]).0, a)
                &&& hi matches Some(b) ==> forall|i: int| 0 <= i < e.len() ==> lt((#[trigger] e[i]).0, b)
            },
            Tree::Internal(keys, ch) => {
                &&& h > 0
                &&& ch.len() == keys.len() + 1
                &&& forall|i: int, j: int|
                    #![trigger keys[i], keys[j]]
                    0 <= i < j < keys.len() ==> !lt(keys[j], keys[i])
                &&& lo matches Some(a) ==> forall|i: int| 0 <= i < keys.len() ==> !lt(#[trigger] keys[i], a)
                &&& hi matches Some(b) ==> forall|i: int| 0 <= i < keys.len() ==> !lt(b, #[trigger] keys[i])
                &&& forall|i: int|
                    0 <= i < ch.len() ==> (#[trigger] ch[i]).wf(
                        (h - 1) as nat,
                        if i > 0 {
                            Some(keys[i - 1])
                        } else {
                            lo
                        },
                        if i < keys.len() {
                            Some(keys[i])
                        } else {
                            hi
                        },
                    )
            },
        },
{
    if let Tree::Internal(keys, ch) = m {
        if h > 0 && ch.len() == keys.len() + 1 {
            assert forall|i: int| 0 <= i < ch.len() implies (#[trigger] ch[i]).wf(
                (h - 1) as nat,
                child_lo(keys, i, lo),
                child_hi(keys, i, hi),
            ) == ch[i].wf(
                (h - 1) as nat,
                if i > 0 {
                    Some(keys[i - 1])
                } else {
                    lo
                },
                if i < keys.len() {
                    Some(keys[i])
                } else {
                    hi
                },
            ) by {}
        }
    }
}

/// A balanced tree of minimum degree `t`: the root holds at most `2 * t - 1` and an inner one at
/// least one separator, and every child of a node holds between `t - 1` and `2 * t - 1`, and so on
/// down to the leaves.
pub proof fn law_balanced<K: PartialOrd, V>(m: Tree<K, V>, h: nat, t: int)
    ensures
        balanced(m, h, t) <==> {
            &&& m.wf(h, None, None)
            &&& m.count() <= 2 * t - 1
            &&& m is Internal ==> m.count() >= 1
            &&& sized(m, h, t - 1, Some(2 * t - 1))
        },
        steady(m, h, t) <==> {
            &&& m.wf(h, None, None)
            &&& sized(m, h, t - 2, None)
            &&& t >= 3 && h >= 1 ==> m.count() >= 1
            &&& t >= 3 && h == 1 ==> (m matches Tree::Internal(_, ch) && exists|i: int|
                0 <= i < ch.len() && (#[trigger] ch[i]).count() >= t - 1)
        },
{
}

/// The bounds on the counts of nodes hold for each child of a node, and below it.
pub proof fn law_sized<K, V>(keys: Seq<K>, ch: Seq<Tree<K, V>>, h: nat, a: int, b: int)
    requires
        h > 0,
    ensures
        sized(Tree::Internal(keys, ch), h, a, Some(b)) <==> forall|i: int|
            0 <= i < ch.len() ==> a <= (#[trigger] ch[i]).count() <= b && sized(
                ch[i],
                (h - 1) as nat,
                a,
                Some(b),
            ),
        sized(Tree::Internal(keys, ch), h, a, None) <==> forall|i: int|
            0 <= i < ch.len() ==> a <= (#[trigger] ch[i]).count() && sized(
                ch[i],
                (h - 1) as nat,
                a,
                None,
            ),
{
    lemma_sized_step(keys, ch, h, a, Some(b));
    lemma_sized_step(keys, ch, h, a, None);
}

proof fn lemma_sized_step<K, V>(keys: Seq<K>, ch: Seq<Tree<K, V>>, h: nat, a: int, b: Option<int>)
    requires
        h > 0,
    ensures
        sized(Tree::Internal(keys, ch), h, a, b) <==> forall|i: int|
            0 <= i < ch.len() ==> fits_size((#[trigger] ch[i]).count(), a, b) && sized(
                ch[i],
                (h - 1) as nat,
                a,
                b,
            ),
{
    let m = Tree::Internal(keys, ch);
    if sized(m, h, a, b) {
        assert(h > 0 ==> (m matches Tree::Internal(_, c) ==> c == ch));
    }
}

} // verus!
