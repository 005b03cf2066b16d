//! When a change can be made, and where a walk over pages leads.
use crate::btree::{removable, settles};
use crate::bytes::bytes_lt;
use crate::bytetree::{
    can_edit, can_insert, can_rebalance, can_remove, edit, edit_leaf, headed, insert_height,
    insert_start, insert_starved, joined, left_route, lemma_left_route, lemma_not_starved, load,
    neat, packed, part, parts, parts_go, put, rebalanced, right_route, roomy, starved, target,
    window_left, window_right, ByteTree,
};
use crate::codec::NodeView;
use crate::cursor::Bound;
use crate::key::Key;
use crate::medium::{page_bytes, InMemoryMedium, Medium};
use crate::normal_btree::{
    neat_way, opt_view, page_lines, reaches, window_tour, BPlusTree, PageLine, Way,
};
use crate::paged::{after, leaves, lemma_leaves, PagedTree};
use crate::shape::{drained, trimmed, trimmed_height};
use crate::store::{Page, PageId};
use crate::tree::{route, Tree};
use crate::window::{half_fence, left_half, part_ids, part_pages, right_half, view_count};
use vstd::prelude::*;

verus! {

// Changes on pages -----------------------------------------------------------------------

/// When a change can be made: a value that goes into a leaf needs room for the cells of the leaf; a
/// window that is rebalanced needs an entry for each leaf, room for the cells of its parts and of
/// the parent, and pages that can be read back for the parts whose first keys are looked at and for
/// the child where the change goes on. Where nothing is rebalanced the change goes on in the child.
pub proof fn law_can_edit(m: ByteTree, h: nat, k: Seq<u8>, v: Option<Seq<u8>>, t: int)
    requires
        m is Internal ==> h > 0,
    ensures
        match m {
            Tree::Leaf(e) => can_edit(m, h, k, v, t) <==> (v matches Some(x) ==> packed(
                Tree::Leaf(put(e, k, x)),
            )),
            Tree::Internal(keys, ch) => {
                let ci = left_route(keys, k) as int;
                let c = ch[ci].count() as int;
                if v is Some && c == 2 * t - 1 || v is None && c < t {
                    let l = window_left(ci);
                    let r = window_right(ci, ch.len() as int);
                    let j = joined(keys, ch, l, r);
                    let n = target(load(ch, l, r) as int, r - l + 1, t, 2 * t - 1);
                    let after = rebalanced(keys, ch, ci, t, 2 * t - 1);
                    after matches Tree::Internal(k2, c2) && {
                        let next = c2[right_route(k2, k) as int];
                        can_edit(m, h, k, v, t) <==> {
                            &&& can_rebalance(keys, ch, ci, t, 2 * t - 1)
                            &&& packed(after)
                            &&& forall|i: int| 0 <= i < n ==> packed(#[trigger] parts(j, n)[i])
                            &&& j is Leaf ==> forall|i: int|
                                1 <= i < n ==> roomy(#[trigger] parts(j, n)[i])
                            &&& roomy(next)
                            &&& can_edit(next, (h - 1) as nat, k, v, t)
                        }
                    }
                } else {
                    can_edit(m, h, k, v, t) <==> can_edit(ch[ci], (h - 1) as nat, k, v, t)
                }
            },
        },
{
    if let Tree::Internal(keys, ch) = m {
        let ci = left_route(keys, k) as int;
        let l = window_left(ci);
        let r = window_right(ci, ch.len() as int);
        let j = joined(keys, ch, l, r);
        let n = target(load(ch, l, r) as int, r - l + 1, t, 2 * t - 1);
        assert forall|i: int| 0 <= i < n implies #[trigger] parts(j, n)[i] == part(j, n, i) by {}
        if parts_go(j, n) {
            assert forall|i: int| 0 <= i < n implies packed(#[trigger] parts(j, n)[i]) by {
                assert(packed(part(j, n, i)));
            }
            if j is Leaf {
                assert forall|i: int| 1 <= i < n implies roomy(#[trigger] parts(j, n)[i]) by {
                    assert(packed(part(j, n, i)));
                }
            }
        }
        if (forall|i: int| 0 <= i < n ==> packed(#[trigger] parts(j, n)[i])) && (j is Leaf ==> forall|
            i: int,
        |
            1 <= i < n ==> roomy(#[trigger] parts(j, n)[i])) {
            assert forall|i: int| 0 <= i < n implies packed(
                #[trigger] part(j, n, i),
            ) && (j is Leaf && i > 0 ==> roomy(part(j, n, i))) by {
                assert(packed(parts(j, n)[i]));
                if j is Leaf && i > 0 {
                    assert(roomy(parts(j, n)[i]));
                }
            }
            assert(parts_go(j, n));
        }
    }
}

/// When an insertion can be made: the halves of a full root need room for their cells, and the new
/// root and the half that the key belongs to must fit altogether; and then the change below.
pub proof fn law_can_insert(m: ByteTree, h: nat, k: Seq<u8>, v: Seq<u8>, t: int)
    requires
        m matches Tree::Internal(keys, ch) ==> ch.len() == keys.len() + 1,
        t >= 2,
    ensures
        m.count() != 2 * t - 1 ==> (can_insert(m, h, k, v, t) <==> can_edit(m, h, k, Some(v), t)),
        m.count() == 2 * t - 1 ==> (insert_start(m, t) matches Tree::Internal(s, c) && s.len() == 1
            && c.len() == 2 && (can_insert(m, h, k, v, t) <==> {
            &&& packed(c[0])
            &&& packed(c[1])
            &&& roomy(insert_start(m, t))
            &&& bytes_lt(s[0], k) ==> roomy(c[1])
            &&& !bytes_lt(s[0], k) ==> roomy(c[0])
            &&& can_edit(insert_start(m, t), h + 1, k, Some(v), t)
        })),
{
    if m.count() == 2 * t - 1 {
        if let Tree::Internal(s, c) = insert_start(m, t) {
            lemma_left_route(s, k);
            assert(s =~= seq![s[0]]);
            assert(left_route(s, k) == 0 <==> !bytes_lt(s[0], k)) by {
                if left_route(s, k) > 0 {
                    assert(bytes_lt(s[0], k));
                }
            }
        }
    }
}

/// When a removal can be made: the change itself, and in the end the root is read once more.
pub proof fn law_can_remove(m: ByteTree, h: nat, k: Seq<u8>, t: int)
    ensures
        can_remove(m, h, k, t) <==> can_edit(m, h, k, None, t) && headed(edit(m, h, k, None, t)),
{
}

/// A change is stopped by an empty leaf if the first window in its way that cannot be rebalanced has
/// too few entries for its leaves, and everything before it goes well.
pub proof fn law_starved(m: ByteTree, h: nat, k: Seq<u8>, v: Option<Seq<u8>>, t: int)
    requires
        m is Internal ==> h > 0,
    ensures
        starved(m, h, k, v, t) ==> !can_edit(m, h, k, v, t),
        match m {
            Tree::Leaf(_) => !starved(m, h, k, v, t),
            Tree::Internal(keys, ch) => {
                let ci = left_route(keys, k) as int;
                let c = ch[ci].count() as int;
                if v is Some && c == 2 * t - 1 || v is None && c < t {
                    let l = window_left(ci);
                    let r = window_right(ci, ch.len() as int);
                    let j = joined(keys, ch, l, r);
                    let n = target(load(ch, l, r) as int, r - l + 1, t, 2 * t - 1);
                    let after = rebalanced(keys, ch, ci, t, 2 * t - 1);
                    after matches Tree::Internal(k2, c2) && {
                        let next = c2[right_route(k2, k) as int];
                        if can_rebalance(keys, ch, ci, t, 2 * t - 1) {
                            starved(m, h, k, v, t) <==> {
                                &&& packed(after)
                                &&& forall|i: int|
                                    0 <= i < n ==> packed(#[trigger] part(j, n, i)) && (j is Leaf
                                        && i > 0 ==> roomy(part(j, n, i)))
                                &&& roomy(next)
                                &&& starved(next, (h - 1) as nat, k, v, t)
                            }
                        } else {
                            starved(m, h, k, v, t)
                        }
                    }
                } else {
                    starved(m, h, k, v, t) <==> starved(ch[ci], (h - 1) as nat, k, v, t)
                }
            },
        },
{
    if starved(m, h, k, v, t) && can_edit(m, h, k, v, t) {
        lemma_not_starved(m, h, k, v, t);
    }
}

/// An insertion is stopped by an empty leaf if the split of a full root goes well and the change
/// below is.
pub proof fn law_insert_starved(m: ByteTree, h: nat, k: Seq<u8>, v: Seq<u8>, t: int)
    ensures
        m.count() != 2 * t - 1 ==> (insert_starved(m, h, k, v, t) <==> starved(m, h, k, Some(v), t)),
        insert_starved(m, h, k, v, t) ==> !can_insert(m, h, k, v, t),
        insert_starved(m, h, k, v, t) ==> starved(
            insert_start(m, t),
            insert_height(m, h, t),
            k,
            Some(v),
            t,
        ),
{
    if insert_starved(m, h, k, v, t) && can_insert(m, h, k, v, t) {
        lemma_not_starved(
            insert_start(m, t),
            insert_height(m, h, t),
            k,
            Some(v),
            t,
        );
    }
}

/// The leaf that a change reaches is the one in which it goes on below each node.
pub proof fn law_edit_leaf(m: ByteTree, h: nat, k: Seq<u8>, v: Option<Seq<u8>>, t: int)
    requires
        m is Internal ==> h > 0,
    ensures
        match m {
            Tree::Leaf(e) => edit_leaf(m, h, k, t, v is Some) == e,
            Tree::Internal(keys, ch) => {
                let ci = left_route(keys, k) as int;
                let c = ch[ci].count() as int;
                if v is Some && c == 2 * t - 1 || v is None && c < t {
                    rebalanced(keys, ch, ci, t, 2 * t - 1) matches Tree::Internal(k2, c2) && edit_leaf(
                        m,
                        h,
                        k,
                        t,
                        v is Some,
                    ) == edit_leaf(c2[right_route(k2, k) as int], (h - 1) as nat, k, t, v is Some)
                } else {
                    edit_leaf(m, h, k, t, v is Some) == edit_leaf(
                        ch[ci],
                        (h - 1) as nat,
                        k,
                        t,
                        v is Some,
                    )
                }
            },
        },
{
}

/// A tree fits on its pages if each of its nodes does, and a way does if each node on it does: that
/// of a lookup, that of a walk from a key on, that to the first leaf, or all ways.
pub proof fn law_neat(m: ByteTree, k: Seq<u8>)
    ensures
        match m {
            Tree::Leaf(_) => {
                &&& neat(m) <==> roomy(m)
                &&& forall|w: Way| #[trigger] neat_way(m, w) <==> roomy(m)
            },
            Tree::Internal(keys, ch) => {
                &&& neat(m) <==> roomy(m) && forall|i: int| 0 <= i < ch.len() ==> neat(#[trigger] ch[i])
                &&& neat_way(m, Way::All) <==> roomy(m) && forall|i: int|
                    0 <= i < ch.len() ==> neat_way(#[trigger] ch[i], Way::All)
                &&& ch.len() > 0 ==> (neat_way(m, Way::First) <==> roomy(m) && neat_way(
                    ch[0],
                    Way::First,
                ))
                &&& left_route(keys, k) < ch.len() ==> (neat_way(m, Way::To(k)) <==> roomy(m)
                    && neat_way(ch[left_route(keys, k) as int], Way::To(k)))
                &&& right_route(keys, k) < ch.len() ==> (neat_way(m, Way::From(k)) <==> roomy(m)
                    && neat_way(ch[right_route(keys, k) as int], Way::From(k)))
            },
        },
{
}

/// Requests of a tree do not fail where its medium is reliable and its pool has a frame, and two
/// where a node is held together with its child; and a tree that is as it was holds the same
/// entries in the same nodes.
pub proof fn law_served<M: Medium>(a: &BPlusTree<M>, b: &BPlusTree<M>)
    ensures
        a.serves(false) <==> a.reliable() && a.frames() >= 1,
        a.serves(true) <==> a.reliable() && a.frames() >= 2,
        a.calm() <==> a.reliable() && a.frames() >= 2,
        a@ == a.tree().contents(),
        a.same_tree(b) ==> {
            &&& a@ == b@
            &&& a.tree() == b.tree()
            &&& a.height() == b.height()
            &&& a.degree() == b.degree()
            &&& a.frames() == b.frames()
            &&& a.room() == b.room()
            &&& a.reliable() == b.reliable()
        },
{
}

// Windows on pages -----------------------------------------------------------------------

/// A full node in two halves: they hold what it held, with the separator between those of an inner
/// node; the left leaf links to the right one, which links on to where the node did.
pub proof fn law_halves(v: NodeView, t: int, right: PageId)
    requires
        t >= 2,
        view_count(v) == 2 * t - 1,
        v matches NodeView::Internal(k, c) ==> c.len() == k.len() + 1,
    ensures
        match (v, left_half(v, t, right), right_half(v, t)) {
            (NodeView::Leaf(e, next), NodeView::Leaf(a, x), NodeView::Leaf(b, y)) => {
                &&& a.len() == t && b.len() == t - 1
                &&& a + b == e
                &&& x == Some(right)
                &&& y == next
                &&& half_fence(v, t) == b[0].0
            },
            (NodeView::Internal(k, c), NodeView::Internal(a, x), NodeView::Internal(b, y)) => {
                &&& a.len() == t - 1 && b.len() == t - 1
                &&& x.len() == t && y.len() == t
                &&& a + seq![half_fence(v, t)] + b == k
                &&& x + y == c
            },
            _ => false,
        },
{
    match v {
        NodeView::Leaf(e, _) => {
            assert(e.take(t) + e.skip(t) =~= e);
        },
        NodeView::Internal(k, c) => {
            assert(k.take(t - 1) + seq![k[t - 1]] + k.skip(t) =~= k);
            assert(c.take(t) + c.skip(t) =~= c);
        },
    }
}

/// The pages of a window that is dealt out: its own pages in their order, as many as there are
/// parts; a fresh one behind them for one part more; and for one part less the last one is given
/// back.
pub proof fn law_part_ids(dom: Set<PageId>, ids: Seq<PageId>, l: int, r: int, fresh: PageId)
    requires
        0 <= l <= r < ids.len(),
    ensures
        part_ids(ids, l, r, r - l + 1, fresh) == ids.subrange(l, r + 1),
        part_ids(ids, l, r, r - l + 2, fresh) == ids.subrange(l, r + 1).push(fresh),
        part_ids(ids, l, r, r - l, fresh) == ids.subrange(l, r),
        part_pages(dom, ids, l, r, r - l + 1, fresh) == dom,
        part_pages(dom, ids, l, r, r - l + 2, fresh) == dom.insert(fresh),
        part_pages(dom, ids, l, r, r - l, fresh) == dom.remove(ids[r]),
{
    assert(part_ids(ids, l, r, r - l + 1, fresh) =~= ids.subrange(l, r + 1));
    assert(part_ids(ids, l, r, r - l + 2, fresh) =~= ids.subrange(l, r + 1).push(fresh));
    assert(part_ids(ids, l, r, r - l, fresh) =~= ids.subrange(l, r));
}

/// Which pages are read for a window: all from left to right, the first one again, for leaves the
/// last one again, and all from left to right.
pub proof fn law_window_tour(c: Seq<PageId>, l: int, r: int, leaf: bool, i: int)
    requires
        0 <= l <= r < c.len(),
        0 <= i <= r - l,
    ensures
        ({
            let tour = window_tour(c, l, r, leaf);
            let w = r - l + 1;
            &&& tour.len() == 2 * w + if leaf {
                2int
            } else {
                1
            }
            &&& tour[i] == c[l + i]
            &&& tour[w] == c[l]
            &&& leaf ==> tour[w + 1] == c[r]
            &&& tour[tour.len() - w + i] == c[l + i]
        }),
{
}

// Walks ----------------------------------------------------------------------------------

/// The leaves of a tree on pages link from left to right, each to the next one; together they hold
/// the entries of the tree, in order.
pub proof fn law_leaf_chain(m: PagedTree, p: Map<PageId, Seq<u8>>, next: Option<PageId>, i: int)
    requires
        m.stored(p),
        m.linked(next),
        0 <= i < leaves(m).len(),
    ensures
        leaves(m)[i] matches PagedTree::Leaf(_, _, link) && link == if i + 1 < leaves(m).len() {
            Some(leaves(m)[i + 1].id())
        } else {
            next
        },
        Tree::Internal(
            Seq::<Seq<u8>>::empty(),
            leaves(m).map_values(|x: PagedTree| x.bare()),
        ).contents() == m.bare().contents(),
{
    lemma_leaves(m, p, next);
    let s = leaves(m);
    assert(s[i].linked(after(s, i, next)));
    assert(s[i] is Leaf);
    if i + 1 < s.len() {
        assert(s[i + 1] is Leaf);
    }
    assert(s.map_values(|x: PagedTree| x.bare()) =~= crate::paged::bare_row(s));
}

/// Which keys a walk over pages reaches: up to the end and the end itself, up to the end without it,
/// or all.
pub proof fn law_reaches(end: Key, k: Seq<u8>)
    ensures
        reaches(Bound::Included(end), k) <==> !bytes_lt(end.0@, k),
        reaches(Bound::Excluded(end), k) <==> bytes_lt(k, end.0@),
        reaches(Bound::<Key>::Unbounded, k),
{
}

/// What a lookup gives, and the lines of an outline, hold what their fields hold.
pub proof fn law_page_views(v: Vec<u8>, s: Seq<PageLine>, i: int, j: int)
    requires
        0 <= i < s.len(),
        0 <= j < s[i].keys@.len(),
    ensures
        opt_view(Some(v)) == Some(v@),
        opt_view(None) == None::<Seq<u8>>,
        page_lines(s).len() == s.len(),
        page_lines(s)[i].depth == s[i].depth,
        page_lines(s)[i].leaf == s[i].leaf,
        page_lines(s)[i].keys.len() == s[i].keys@.len(),
        page_lines(s)[i].keys[j] == s[i].keys@[j].0@,
{
}

// Media ----------------------------------------------------------------------------------

/// The pages of a medium in memory are numbered one after another, and begin anew after the highest
/// number of 32 bits.
pub proof fn law_numbers(m: InMemoryMedium, n: nat)
    ensures
        m.upcoming(0) == m.next_id(),
        m.upcoming(n + 1) == if m.upcoming(n) == 0xffff_ffff {
            0
        } else {
            m.upcoming(n) + 1
        },
        m.reliable(),
        m.records(),
        (forall|id: PageId| #[trigger] m.pages().contains_key(id) ==> id < m.next_id()) ==> m.room()
            + m.next_id() == 0x1_0000_0000,
        (exists|id: PageId| #[trigger] m.pages().contains_key(id) && id >= m.next_id()) ==> m.room()
            == 0,
{
    let a = m.next_id() + n;
    assert((a + 1) % 0x1_0000_0000 == if a % 0x1_0000_0000 == 0xffff_ffff {
        0
    } else {
        a % 0x1_0000_0000 + 1
    });
}

/// The pages of a medium are those that it keeps, byte by byte.
pub proof fn law_page_bytes(m: Map<PageId, Page>, id: PageId)
    ensures
        page_bytes(m).contains_key(id) <==> m.contains_key(id),
        m.contains_key(id) ==> page_bytes(m)[id] == m[id].0@,
{
}

// Removals in memory ---------------------------------------------------------------------

/// When a key can be removed: below an inner node, if the child on the way can be filled up until it
/// holds `t` and the key can be removed from it; a child that holds less than `t` and has no
/// neighbour cannot.
pub proof fn law_removable<K: PartialOrd, V>(
    keys: Seq<K>,
    ch: Seq<Tree<K, V>>,
    h: nat,
    ci: int,
    k: K,
    t: int,
)
    requires
        h > 0,
        ch.len() == keys.len() + 1,
        0 <= ci < ch.len(),
    ensures
        forall|e: Seq<(K, V)>, g: nat| #[trigger] removable(Tree::Leaf(e), g, k, t),
        removable(Tree::Internal(keys, ch), h, k, t) <==> settles(
            keys,
            ch,
            h,
            route(keys, k) as int,
            k,
            t,
        ),
        ch[ci].count() >= t ==> (settles(keys, ch, h, ci, k, t) <==> removable(
            ch[ci],
            (h - 1) as nat,
            k,
            t,
        )),
        ch[ci].count() < t && ch.len() == 1 ==> !settles(keys, ch, h, ci, k, t),
        ch[ci].count() < t && ch.len() > 1 ==> match crate::balance::rebalanced(keys, ch, ci, t, t - 1) {
            Tree::Leaf(_) => true,
            Tree::Internal(k2, c2) => {
                let j = if c2.len() < ch.len() && ci + 1 == ch.len() {
                    ci - 1
                } else {
                    ci
                };
                if c2.len() < ch.len() || (c2.len() == ch.len() && ch[ci].count() < c2[ci].count()) {
                    settles(keys, ch, h, ci, k, t) <==> settles(k2, c2, h, j, k, t)
                } else {
                    !settles(keys, ch, h, ci, k, t)
                }
            },
        },
{
}

/// What a removal leaves, and when it can be made: from degree three on, always.
pub proof fn law_tree_without<K: Ord + Clone, V>(b: crate::btree::BPlusTree<K, V>, k: K)
    ensures
        b.degree() >= 3 ==> b.can_remove(k),
        b.degree() < 3 ==> (b.can_remove(k) <==> removable(b.tree(), b.height(), k, b.degree())),
        b.tree_without(k) == trimmed(drained(b.tree(), b.height(), k, b.degree())),
        b.height_without(k) == trimmed_height(
            drained(b.tree(), b.height(), k, b.degree()),
            b.height(),
        ),
{
}

} // verus!
