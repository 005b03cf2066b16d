//! What holds of several operations together.
use crate::bytes::{bytes_le, bytes_lt, lemma_bytes_order};
use crate::bytetree::{
    can_edit, can_insert, changed, clear, edit, edit_leaf, edited, insert_height, insert_start,
    inserted, left_route, lemma_contents, lemma_edit, lemma_edit_clear, lemma_edit_leaf,
    lemma_left_route, lemma_looked_up, lemma_readied, lemma_seek, lemma_split_root, lemma_steered,
    lemma_tail_from, lemma_trimmed, looked_up, removed, removed_height, seek, sorted_tree, split_at,
    split_root, steered, strict, tail_from, ByteTree, Entry,
};
use crate::cbtre::balanced;
use crate::clock::{Dial, Turn};
use crate::codec::{legible, lemma_round_trip, node_of, NodeView};
use crate::entries::{
    del, get, lemma_put_del_sorted, lemma_rank, lemma_rank_is, present, put, rank, sorted,
};
use crate::lean::{deals, lean, least, lemma_lean_edit, lemma_lean_readied};
use crate::medium::Medium;
use crate::key::Key;
use crate::normal_btree::{parts_written, reach, reaches, Bound};
use crate::paged::part_view;
use crate::node::{lends_first, siblings};
use crate::order::{le, lt, total_order};
use crate::pool::{BpmError, BufferPoolManager};
use crate::store::{type_byte, type_of, typed, NULL_PAGE, PageId, PageType};
use crate::tree::{child_hi, child_lo, cut, flat, join, lemma_flat_at, Tree};
use crate::window::{
    can_deal_view, dealable, fence_view, joined_pages, lemma_joined_pages, lemma_part_dealable,
    lemma_parts_fit, neighbours, node_at, part_fits, part_ids, view_count,
};
use crate::{balance, bytetree, tree};
use vstd::prelude::*;

verus! {

// Maps ---------------------------------------------------------------------------------

/// What was put under a key is found under it.
pub proof fn law_get_put<K: PartialOrd, V>(s: Seq<(K, V)>, k: K, v: V)
    requires
        sorted(s),
        total_order::<K>(),
    ensures
        get(put(s, k, v), k) == Some(v),
{
    lemma_rank(s, k);
    let r = rank(s, k) as int;
    let p = put(s, k, v);
    assert forall|i: int| 0 <= i < r implies lt((#[trigger] p[i]).0, k) by {
        assert(p[i] == s[i]);
    }
    lemma_rank_is(p, k, r);
}

/// Putting a value under one key changes what is under no other.
pub proof fn law_get_put_other<K: PartialOrd, V>(s: Seq<(K, V)>, k: K, v: V, j: K)
    requires
        sorted(s),
        total_order::<K>(),
        lt(j, k) || lt(k, j),
    ensures
        get(put(s, k, v), j) == get(s, j),
{
    lemma_rank(s, k);
    lemma_rank(s, j);
    let r = rank(s, k) as int;
    let q = rank(s, j) as int;
    let p = put(s, k, v);
    if present(s, k) {
        assert forall|i: int| 0 <= i < q implies lt((#[trigger] p[i]).0, j) by {
            assert(p[i].0 == s[i].0);
        }
        lemma_rank_is(p, j, q);
    } else if lt(k, j) {
        assert(r <= q) by {
            if q < r {
                assert(lt(s[q].0, k));
            }
        }
        assert forall|i: int| 0 <= i < q + 1 implies lt((#[trigger] p[i]).0, j) by {
            if i < r {
                assert(p[i] == s[i]);
            } else if i > r {
                assert(p[i] == s[i - 1]);
            }
        }
        if q < s.len() {
            assert(p[q + 1] == s[q]);
        }
        lemma_rank_is(p, j, q + 1);
    } else {
        assert(q <= r) by {
            if r < q {
                assert(lt(s[r].0, j));
            }
        }
        assert forall|i: int| 0 <= i < q implies lt((#[trigger] p[i]).0, j) by {
            assert(p[i] == s[i]);
        }
        if q < r {
            assert(p[q] == s[q]);
        }
        lemma_rank_is(p, j, q);
        if q == r && q < s.len() {
            assert(lt(k, s[q].0));
        }
    }
}

/// What was deleted is not found.
pub proof fn law_get_del<K: PartialOrd, V>(s: Seq<(K, V)>, k: K)
    requires
        sorted(s),
        total_order::<K>(),
    ensures
        get(del(s, k), k) is None,
{
    lemma_rank(s, k);
    let r = rank(s, k) as int;
    let p = del(s, k);
    if present(s, k) {
        assert forall|i: int| 0 <= i < r implies lt((#[trigger] p[i]).0, k) by {
            assert(p[i] == s[i]);
        }
        if r < p.len() {
            assert(p[r] == s[r + 1]);
            assert(lt(s[r].0, s[r + 1].0));
        }
        lemma_rank_is(p, k, r);
    }
}

/// Deleting one key changes what is under no other.
pub proof fn law_get_del_other<K: PartialOrd, V>(s: Seq<(K, V)>, k: K, j: K)
    requires
        sorted(s),
        total_order::<K>(),
        lt(j, k) || lt(k, j),
    ensures
        get(del(s, k), j) == get(s, j),
{
    lemma_rank(s, k);
    lemma_rank(s, j);
    let r = rank(s, k) as int;
    let q = rank(s, j) as int;
    let p = del(s, k);
    if present(s, k) {
        if lt(k, j) {
            assert(r < q) by {
                if q <= r {
                    assert(lt(s[r].0, j));
                    if q < r {
                        assert(lt(s[q].0, s[r].0));
                    }
                }
            }
            assert forall|i: int| 0 <= i < q - 1 implies lt((#[trigger] p[i]).0, j) by {
                if i < r {
                    assert(p[i] == s[i]);
                } else {
                    assert(p[i] == s[i + 1]);
                }
            }
            if q < s.len() {
                assert(p[q - 1] == s[q]);
            }
            lemma_rank_is(p, j, q - 1);
        } else {
            assert(q <= r) by {
                if r < q {
                    assert(lt(s[r].0, j));
                }
            }
            assert forall|i: int| 0 <= i < q implies lt((#[trigger] p[i]).0, j) by {
                assert(p[i] == s[i]);
            }
            if q < r {
                assert(p[q] == s[q]);
            } else {
                assert(lt(j, s[r].0));
                if r + 1 < s.len() {
                    assert(p[q] == s[r + 1]);
                    assert(lt(s[r].0, s[r + 1].0));
                }
            }
            lemma_rank_is(p, j, q);
        }
    }
}

/// Of two values put under one key the second stays.
pub proof fn law_put_put<K: PartialOrd, V>(s: Seq<(K, V)>, k: K, v: V, w: V)
    requires
        sorted(s),
        total_order::<K>(),
        present(s, k),
    ensures
        put(put(s, k, v), k, w) == put(s, k, w),
{
    lemma_rank(s, k);
    let r = rank(s, k) as int;
    let p = put(s, k, v);
    assert forall|i: int| 0 <= i < r implies lt((#[trigger] p[i]).0, k) by {
        assert(p[i] == s[i]);
    }
    lemma_rank_is(p, k, r);
    assert(put(p, k, w) =~= put(s, k, w));
}

/// Deleting a key that was not there before undoes putting a value under it.
pub proof fn law_del_put<K: PartialOrd, V>(s: Seq<(K, V)>, k: K, v: V)
    requires
        sorted(s),
        total_order::<K>(),
        !present(s, k),
    ensures
        del(put(s, k, v), k) == s,
{
    lemma_rank(s, k);
    let r = rank(s, k) as int;
    let p = put(s, k, v);
    assert forall|i: int| 0 <= i < r implies lt((#[trigger] p[i]).0, k) by {
        assert(p[i] == s[i]);
    }
    lemma_rank_is(p, k, r);
    assert(del(p, k) =~= s);
}

/// A map grows by one when a key is new, and shrinks by one when a key is there.
pub proof fn law_len<K: PartialOrd, V>(s: Seq<(K, V)>, k: K, v: V)
    ensures
        put(s, k, v).len() == s.len() + (if present(s, k) {
            0int
        } else {
            1int
        }),
        del(s, k).len() == s.len() - (if present(s, k) {
            1int
        } else {
            0int
        }),
{
    lemma_rank(s, k);
}

/// Neither key sorts before the other.
pub open spec fn alike<K: PartialOrd>(a: K, b: K) -> bool {
    !lt(a, b) && !lt(b, a)
}

/// The map after some insertions, the first of them first.
pub open spec fn put_all<K: PartialOrd, V>(s: Seq<(K, V)>, ops: Seq<(K, V)>) -> Seq<(K, V)>
    decreases ops.len(),
{
    if ops.len() == 0 {
        s
    } else {
        put(put_all(s, ops.drop_last()), ops.last().0, ops.last().1)
    }
}

/// The value that was put under `k` last.
pub open spec fn last_value<K: PartialOrd, V>(ops: Seq<(K, V)>, k: K) -> Option<V>
    decreases ops.len(),
{
    if ops.len() == 0 {
        None
    } else if alike(ops.last().0, k) {
        Some(ops.last().1)
    } else {
        last_value(ops.drop_last(), k)
    }
}

proof fn lemma_get_alike<K: PartialOrd, V>(s: Seq<(K, V)>, j: K, k: K)
    requires
        total_order::<K>(),
        alike(j, k),
    ensures
        rank(s, j) == rank(s, k),
        get(s, j) == get(s, k),
    decreases s.len(),
{
    lemma_rank(s, j);
    lemma_rank(s, k);
    let r = rank(s, j) as int;
    assert forall|i: int| 0 <= i < r implies lt((#[trigger] s[i]).0, k) by {
        assert(lt(s[i].0, j));
        if !lt(s[i].0, k) {
            assert(lt(k, j));
        }
    }
    if r < s.len() && lt(s[r].0, k) {
        assert(lt(j, k) || lt(s[r].0, j));
    }
    lemma_rank_is(s, k, r);
    if r < s.len() {
        if lt(k, s[r].0) && !lt(j, s[r].0) {
            assert(lt(k, j));
        }
        if lt(j, s[r].0) && !lt(k, s[r].0) {
            assert(lt(j, k));
        }
    }
}

/// After any run of insertions into an empty map a key has the value that was put under it last,
/// and a walk over the map gives the keys in order, each with that value.
pub proof fn law_last_value<K: PartialOrd, V>(ops: Seq<(K, V)>, k: K)
    requires
        total_order::<K>(),
    ensures
        sorted(put_all(Seq::empty(), ops)),
        get(put_all(Seq::empty(), ops), k) == last_value(ops, k),
        ({
            let walk = put_all(Seq::empty(), ops);
            forall|i: int|
                0 <= i < walk.len() ==> last_value(ops, (#[trigger] walk[i]).0) == Some(walk[i].1)
        }),
    decreases ops.len(),
{
    lemma_last_value(ops, k);
    let walk = put_all(Seq::empty(), ops);
    assert forall|i: int| 0 <= i < walk.len() implies last_value(ops, (#[trigger] walk[i]).0) == Some(
        walk[i].1,
    ) by {
        lemma_last_value(ops, walk[i].0);
        assert forall|j: int| 0 <= j < i implies lt((#[trigger] walk[j]).0, walk[i].0) by {}
        lemma_rank_is(walk, walk[i].0, i);
    }
}

proof fn lemma_last_value<K: PartialOrd, V>(ops: Seq<(K, V)>, k: K)
    requires
        total_order::<K>(),
    ensures
        sorted(put_all(Seq::empty(), ops)),
        get(put_all(Seq::empty(), ops), k) == last_value(ops, k),
    decreases ops.len(),
{
    if ops.len() > 0 {
        let s = put_all(Seq::empty(), ops.drop_last());
        let (j, v) = ops.last();
        lemma_last_value(ops.drop_last(), k);
        lemma_put_del_sorted(s, j, v);
        if alike(j, k) {
            law_get_put(s, j, v);
            lemma_get_alike(put(s, j, v), j, k);
        } else {
            law_get_put_other(s, j, v, k);
        }
    }
}

// Balance ------------------------------------------------------------------------------

/// The fewest entries below a node at height `h` that is not the root.
pub open spec fn fewest(h: nat, t: int) -> int
    decreases h,
{
    if h == 0 {
        t - 1
    } else {
        t * fewest((h - 1) as nat, t)
    }
}

proof fn lemma_fewest<K: PartialOrd, V>(m: Tree<K, V>, h: nat, lo: Option<K>, hi: Option<K>, t: int)
    requires
        m.wf(h, lo, hi),
        t >= 2,
        m.count() >= t - 1,
        balance::sized(m, h, t - 1, Some(2 * t - 1)),
    ensures
        m.contents().len() >= fewest(h, t),
        fewest(h, t) >= 1,
    decreases h,
{
    if let Tree::Internal(keys, ch) = m {
        let x = fewest((h - 1) as nat, t);
        assert forall|i: int| 0 <= i < ch.len() implies (#[trigger] ch[i]).contents().len() >= x && x >= 1 by {
            assert(ch[i].wf((h - 1) as nat, child_lo(keys, i, lo), child_hi(keys, i, hi)));
            lemma_fewest(ch[i], (h - 1) as nat, child_lo(keys, i, lo), child_hi(keys, i, hi), t);
        }
        assert(ch[0].contents().len() >= x);
        lemma_flat_len(ch, x);
        assert(ch.len() * x >= t * x) by (nonlinear_arith)
            requires
                ch.len() >= t,
                x >= 1,
        ;
        assert(t * x >= 1) by (nonlinear_arith)
            requires
                t >= 2,
                x >= 1,
        ;
    }
}

proof fn lemma_flat_len<K, V>(ch: Seq<Tree<K, V>>, x: int)
    requires
        x >= 0,
        forall|i: int| 0 <= i < ch.len() ==> (#[trigger] ch[i]).contents().len() >= x,
    ensures
        flat(ch).len() >= ch.len() * x,
    decreases ch.len(),
{
    if ch.len() > 0 {
        let d = ch.drop_last();
        assert forall|i: int| 0 <= i < d.len() implies (#[trigger] d[i]).contents().len() >= x by {
            assert(d[i] == ch[i]);
        }
        lemma_flat_len(d, x);
        assert(ch[ch.len() - 1].contents().len() >= x);
        assert(ch.len() * x == d.len() * x + x) by (nonlinear_arith)
            requires
                ch.len() == d.len() + 1,
        ;
    } else {
        assert(0 * x == 0);
    }
}

/// A balanced tree is low: one of height `h` has at least `2 * (t - 1) * t^(h - 1)` entries.
pub proof fn law_height<K: PartialOrd, V>(m: Tree<K, V>, h: nat, t: int)
    requires
        balanced(m, h, t),
        t >= 2,
        h >= 1,
    ensures
        m.contents().len() >= 2 * fewest((h - 1) as nat, t),
{
    if let Tree::Internal(keys, ch) = m {
        let x = fewest((h - 1) as nat, t);
        assert forall|i: int| 0 <= i < ch.len() implies (#[trigger] ch[i]).contents().len() >= x && x >= 1 by {
            assert(ch[i].wf((h - 1) as nat, child_lo(keys, i, None), child_hi(keys, i, None)));
            lemma_fewest(ch[i], (h - 1) as nat, child_lo(keys, i, None), child_hi(keys, i, None), t);
        }
        assert(ch[0].contents().len() >= x);
        lemma_flat_len(ch, x);
        assert(ch.len() * x >= 2 * x) by (nonlinear_arith)
            requires
                ch.len() >= 2,
                x >= 1,
        ;
    }
}

/// In every inner node the separators rise, none twice.
pub open spec fn strict_separators<K: PartialOrd, V>(m: Tree<K, V>, h: nat) -> bool
    decreases h,
{
    m matches Tree::Internal(keys, ch) ==> {
        &&& forall|i: int, j: int|
            #![trigger keys[i], keys[j]]
            0 <= i < j < keys.len() ==> lt(keys[i], keys[j])
        &&& h > 0 ==> forall|i: int| 0 <= i < ch.len() ==> strict_separators(#[trigger] ch[i], (h - 1) as nat)
    }
}

proof fn lemma_strict_separators<K: PartialOrd, V>(
    m: Tree<K, V>,
    h: nat,
    lo: Option<K>,
    hi: Option<K>,
    t: int,
)
    requires
        total_order::<K>(),
        m.wf(h, lo, hi),
        t >= 2,
        balance::sized(m, h, t - 1, Some(2 * t - 1)),
    ensures
        strict_separators(m, h),
    decreases h,
{
    if let Tree::Internal(keys, ch) = m {
        let g = (h - 1) as nat;
        assert forall|i: int| 0 <= i < ch.len() implies strict_separators(#[trigger] ch[i], g) by {
            assert(ch[i].wf(g, child_lo(keys, i, lo), child_hi(keys, i, hi)));
            lemma_strict_separators(ch[i], g, child_lo(keys, i, lo), child_hi(keys, i, hi), t);
        }
        assert forall|i: int, j: int|
            #![trigger keys[i], keys[j]]
            0 <= i < j < keys.len() implies lt(keys[i], keys[j]) by {
            let c = ch[i + 1];
            let clo = child_lo(keys, i + 1, lo);
            let chi = child_hi(keys, i + 1, hi);
            assert(c.wf(g, clo, chi));
            lemma_fewest(c, g, clo, chi, t);
            tree::lemma_contents(c, g, clo, chi);
            let k = c.contents()[0].0;
            assert(le(keys[i], k) && lt(k, keys[i + 1]));
            assert(le(keys[i + 1], keys[j]) || i + 1 == j);
        }
    }
}

/// In a balanced tree the separators of a node rise, none twice.
pub proof fn law_strict_separators<K: PartialOrd, V>(m: Tree<K, V>, h: nat, t: int)
    requires
        total_order::<K>(),
        balanced(m, h, t),
        t >= 2,
    ensures
        strict_separators(m, h),
{
    lemma_strict_separators(m, h, None, None, t);
}

/// A node that borrows from its right neighbour and lends back to it leaves both as they were,
/// and with them the separator of two inner nodes; that of two leaves becomes the first key of
/// the right one.
pub proof fn law_borrow_back<K, V>(l: Tree<K, V>, s: K, r: Tree<K, V>)
    requires
        siblings(l, r),
        lends_first(r),
    ensures
        ({
            let (l1, s1, r1) = cut(join(l, s, r), l.count() as int + 1);
            let (l2, s2, r2) = cut(join(l1, s1, r1), l1.count() - 1);
            &&& l2 == l
            &&& r2 == r
            &&& s2 == match r {
                Tree::Leaf(e) => e[0].0,
                Tree::Internal(_, _) => s,
            }
        }),
{
    let (l1, s1, r1) = cut(join(l, s, r), l.count() as int + 1);
    let (l2, s2, r2) = cut(join(l1, s1, r1), l1.count() - 1);
    match (l, r) {
        (Tree::Leaf(a), Tree::Leaf(b)) => {
            assert((a + b).take(a.len() as int + 1) + (a + b).skip(a.len() as int + 1) =~= a + b);
            assert(l2->Leaf_0 =~= a);
            assert(r2->Leaf_0 =~= b);
        },
        (Tree::Internal(k1, c1), Tree::Internal(k2, c2)) => {
            let k = k1.push(s) + k2;
            let c = c1 + c2;
            let n = k1.len() as int + 1;
            assert(k.take(n).push(k[n]) + k.skip(n + 1) =~= k);
            assert(c.take(n + 1) + c.skip(n + 1) =~= c);
            assert(l2->Internal_0 =~= k1);
            assert(l2->Internal_1 =~= c1);
            assert(r2->Internal_0 =~= k2);
            assert(r2->Internal_1 =~= c2);
        },
        _ => {},
    }
}

// The clock ----------------------------------------------------------------------------

/// A frame that is pinned is never taken.
pub proof fn law_pinned_stays(d: Dial, f: int)
    requires
        d.takes(f),
    ensures
        0 <= f < d.pinned.len(),
        !d.pinned[f],
{
    assert(d.cold(f) || d.free(f));
}

/// A frame that was used since the hand passed by is taken only if all free frames were.
pub proof fn law_second_chance(d: Dial, f: int, g: int)
    requires
        d.takes(f),
        d.reference[f],
        d.free(g),
    ensures
        d.reference[g],
{
    if d.cold(g) {
        assert(exists|x: int| d.cold(x));
        assert(d.cold(f));
    }
}

/// Where a frame is free, exactly one is taken.
pub proof fn law_one_victim(d: Dial, f: int, g: int)
    requires
        d.reference.len() == d.pinned.len(),
        0 <= d.hand < d.pinned.len(),
        d.takes(f),
        d.takes(g),
    ensures
        f == g,
{
    if exists|x: int| d.cold(x) {
        assert(d.cold(f) && d.cold(g));
        assert(d.steps(f) <= d.steps(g) && d.steps(g) <= d.steps(f));
    } else {
        assert(d.free(f) && d.free(g));
        assert(d.steps(f) <= d.steps(g) && d.steps(g) <= d.steps(f));
    }
}

/// A frame that is pinned is no victim in any run of calls that does not unpin it.
pub proof fn law_pinned_through(d: Dial, turns: Seq<Turn>, f: int)
    requires
        d.shaped(),
        0 <= f < d.pinned.len(),
        d.pinned[f],
        forall|i: int|
            0 <= i < turns.len() ==> (#[trigger] turns[i]).fits(d) && turns[i] != Turn::Unpin(f),
    ensures
        d.run(turns).pinned.len() == d.pinned.len(),
        d.run(turns).pinned[f],
        forall|i: int| 0 <= i <= turns.len() ==> !d.run(#[trigger] turns.take(i)).takes(f),
    decreases turns.len(),
{
    if turns.len() > 0 {
        let rest = turns.drop_last();
        assert forall|i: int| 0 <= i < rest.len() implies (#[trigger] rest[i]).fits(d) && rest[i]
            != Turn::Unpin(f) by {
            assert(rest[i] == turns[i]);
        }
        law_pinned_through(d, rest, f);
        let last = turns[turns.len() - 1];
        let e = d.run(rest);
        assert(last.fits(d) && last != Turn::Unpin(f));
        if last is Victim && exists|g: int| e.takes(g) {
            let g = choose|g: int| e.takes(g);
            assert(e.takes(g));
            assert(e.free(g) || e.cold(g));
        }
        assert(d.run(turns) == e.turned(last));
        assert(d.run(turns).pinned[f]);
        assert(!d.run(turns).free(f) && !d.run(turns).cold(f));
        assert forall|i: int| 0 <= i <= turns.len() implies !d.run(#[trigger] turns.take(i)).takes(f) by {
            if i < turns.len() {
                assert(turns.take(i) =~= rest.take(i));
            } else {
                assert(turns.take(i) =~= turns);
            }
        }
    } else {
        assert(turns.take(0) =~= turns);
        assert(!d.free(f) && !d.cold(f));
    }
}

// The pool -----------------------------------------------------------------------------

/// A read gives back what was last written, wherever the page has been meanwhile: `a` is the
/// pool before the write, `b` after it, `c` a later pool that has the same pages, with page `id`
/// in frame `f`.
pub proof fn law_read_back<M: Medium>(
    a: &BufferPoolManager<M>,
    b: &BufferPoolManager<M>,
    c: &BufferPoolManager<M>,
    id: PageId,
    data: Seq<u8>,
    f: int,
)
    requires
        b.pages() == a.pages().insert(id, data),
        c.pages() == b.pages(),
        c.wf(),
        0 <= f < c.frames(),
        c.at(f) == Some(id),
    ensures
        c.bytes_at(f) == data,
{
    c.lemma_at(f, id);
}

/// A write to one page changes no other.
pub proof fn law_read_other<M: Medium>(
    a: &BufferPoolManager<M>,
    b: &BufferPoolManager<M>,
    c: &BufferPoolManager<M>,
    id: PageId,
    data: Seq<u8>,
    other: PageId,
    f: int,
)
    requires
        b.pages() == a.pages().insert(id, data),
        c.pages() == b.pages(),
        c.wf(),
        0 <= f < c.frames(),
        c.at(f) == Some(other),
        other != id,
    ensures
        c.bytes_at(f) == a.pages()[other],
{
    c.lemma_at(f, other);
}

/// A node that was written to a page is read back from it, whatever happened to other pages
/// meanwhile: `p` are the pages before the write, `q` some later pages of which this one has not
/// been written again.
pub proof fn law_node_back(n: NodeView, p: Map<PageId, Seq<u8>>, q: Map<PageId, Seq<u8>>, id: PageId)
    requires
        n.fits(),
        n.sound(),
        q[id] == p.insert(id, n.image())[id],
    ensures
        legible(q[id]),
        node_of(q[id]) == n,
{
    lemma_round_trip(n);
}

// Byte strings -------------------------------------------------------------------------

/// Putting and deleting keep keys from occurring twice.
pub proof fn law_strict(e: Seq<Entry>, k: Seq<u8>, v: Option<Seq<u8>>)
    requires
        strict(e),
    ensures
        strict(changed(e, k, v)),
{
    lemma_bytes_order();
    bytetree::lemma_place(e, k);
    let r = bytetree::place(e, k) as int;
    assert forall|i: int| r <= i < e.len() && !bytetree::found(e, k) implies bytes_lt(
        k,
        (#[trigger] e[i]).0,
    ) by {
        if i > r {
            assert(bytes_lt(e[r].0, e[i].0));
        }
    }
}

/// What was put under a key is found under it.
pub proof fn law_bytes_get_put(e: Seq<Entry>, k: Seq<u8>, v: Seq<u8>)
    requires
        strict(e),
    ensures
        bytetree::get(bytetree::put(e, k, v), k) == Some(v),
{
    lemma_bytes_order();
    law_strict(e, k, Some(v));
    bytetree::lemma_place(e, k);
    let r = bytetree::place(e, k) as int;
    let p = bytetree::put(e, k, v);
    if r > 0 {
        assert(p[r - 1] == e[r - 1]);
    }
    assert(p[r].0 == k);
    lemma_strict_rising(p);
    bytetree::lemma_place_is(p, k, r);
}

proof fn lemma_strict_rising(e: Seq<Entry>)
    requires
        strict(e),
    ensures
        bytetree::rising(e),
{
    lemma_bytes_order();
}

/// What was deleted is not found.
pub proof fn law_bytes_get_del(e: Seq<Entry>, k: Seq<u8>)
    requires
        strict(e),
    ensures
        bytetree::get(bytetree::del(e, k), k) is None,
{
    lemma_bytes_order();
    law_strict(e, k, None);
    bytetree::lemma_place(e, k);
    let r = bytetree::place(e, k) as int;
    let p = bytetree::del(e, k);
    if bytetree::found(e, k) {
        if r > 0 {
            assert(p[r - 1] == e[r - 1]);
        }
        if r < p.len() {
            assert(p[r] == e[r + 1]);
            assert(bytes_lt(e[r].0, e[r + 1].0));
        }
        lemma_strict_rising(p);
        bytetree::lemma_place_is(p, k, r);
    }
}

/// Changing one key changes what is under no other.
pub proof fn law_bytes_get_other(e: Seq<Entry>, k: Seq<u8>, v: Option<Seq<u8>>, j: Seq<u8>)
    requires
        strict(e),
        j != k,
    ensures
        bytetree::get(changed(e, k, v), j) == bytetree::get(e, j),
{
    lemma_bytes_order();
    law_strict(e, k, v);
    bytetree::lemma_place(e, k);
    bytetree::lemma_place(e, j);
    let r = bytetree::place(e, k) as int;
    let q = bytetree::place(e, j) as int;
    let p = changed(e, k, v);
    lemma_strict_rising(p);
    lemma_strict_rising(e);
    if bytetree::found(e, j) {
        assert(e[q].0 == j);
        assert(exists|i: int| 0 <= i < p.len() && #[trigger] p[i] == e[q]) by {
            if v is Some {
                if bytetree::found(e, k) || q < r {
                    assert(p[q] == e[q]);
                } else {
                    assert(p[q + 1] == e[q]);
                }
            } else if bytetree::found(e, k) && q > r {
                assert(p[q - 1] == e[q]);
            } else {
                assert(p[q] == e[q]);
            }
        }
        let i = choose|i: int| 0 <= i < p.len() && #[trigger] p[i] == e[q];
        lemma_get_at(p, i);
    } else if bytetree::found(p, j) {
        bytetree::lemma_place(p, j);
        let i = bytetree::place(p, j) as int;
        assert(p[i].0 == j);
        let x = if v is Some {
            if bytetree::found(e, k) || i < r {
                i
            } else {
                i - 1
            }
        } else if bytetree::found(e, k) && i >= r {
            i + 1
        } else {
            i
        };
        assert(e[x].0 == j);
        bytetree::lemma_found(e, j, x);
    }
}

/// An entry is found under its key.
proof fn lemma_get_at(e: Seq<Entry>, i: int)
    requires
        strict(e),
        0 <= i < e.len(),
    ensures
        bytetree::get(e, e[i].0) == Some(e[i].1),
{
    lemma_bytes_order();
    lemma_strict_rising(e);
    let k = e[i].0;
    if i > 0 {
        assert(bytes_lt(e[i - 1].0, e[i].0));
    }
    bytetree::lemma_place_is(e, k, i);
}

// Paged trees --------------------------------------------------------------------------

/// The leaf that a lookup ends at is a part of the entries.
proof fn lemma_seek_part(
    m: ByteTree,
    h: nat,
    lo: Option<Seq<u8>>,
    hi: Option<Seq<u8>>,
    k: Seq<u8>,
) -> (r: (
    Seq<Entry>,
    Seq<Entry>,
))
    requires
        sorted_tree(m, h, lo, hi),
    ensures
        m.contents() == r.0 + seek(m, h, k) + r.1,
    decreases h,
{
    match m {
        Tree::Leaf(e) => {
            let z = Seq::<Entry>::empty();
            assert(z + e + z =~= e);
            (z, z)
        },
        Tree::Internal(keys, ch) => {
            lemma_left_route(keys, k);
            let ci = left_route(keys, k) as int;
            assert(sorted_tree(ch[ci], (h - 1) as nat, child_lo(keys, ci, lo), child_hi(keys, ci, hi)));
            let (a, b) = lemma_seek_part(
                ch[ci],
                (h - 1) as nat,
                child_lo(keys, ci, lo),
                child_hi(keys, ci, hi),
                k,
            );
            lemma_flat_at(ch, ci);
            let x = flat(ch.take(ci)) + a;
            let y = b + flat(ch.skip(ci + 1));
            assert(m.contents() =~= x + seek(m, h, k) + y);
            (x, y)
        },
    }
}

/// The keys of that leaf do not fall.
proof fn lemma_part_rising(m: ByteTree, h: nat, k: Seq<u8>, a: Seq<Entry>, b: Seq<Entry>)
    requires
        sorted_tree(m, h, None, None),
        m.contents() == a + seek(m, h, k) + b,
    ensures
        bytetree::rising(seek(m, h, k)),
{
    let e = seek(m, h, k);
    let c = m.contents();
    lemma_contents(m, h, None, None);
    assert forall|i: int, j: int| 0 <= i < j < e.len() implies bytes_le(
        (#[trigger] e[i]).0,
        (#[trigger] e[j]).0,
    ) by {
        assert(c[a.len() + i] == e[i]);
        assert(c[a.len() + j] == e[j]);
    }
}

/// Where no separator equals the key and no key occurs twice, a lookup finds what the tree has
/// under it.
pub proof fn law_search(m: ByteTree, h: nat, k: Seq<u8>, r: Option<Seq<u8>>)
    requires
        sorted_tree(m, h, None, None),
        clear(m, k),
        strict(m.contents()),
        looked_up(seek(m, h, k), k, r),
    ensures
        r == bytetree::get(m.contents(), k),
{
    let e = seek(m, h, k);
    let (a, b) = lemma_seek_part(m, h, None, None, k);
    let c = m.contents();
    assert(strict(e)) by {
        assert forall|i: int, j: int| 0 <= i < j < e.len() implies bytes_lt(
            (#[trigger] e[i]).0,
            (#[trigger] e[j]).0,
        ) by {
            assert(c[a.len() + i] == e[i]);
            assert(c[a.len() + j] == e[j]);
        }
    }
    lemma_seek(m, h, None, None, k);
    lemma_look(e, k, r);
}

/// What a lookup finds the tree has, whatever the separators are.
pub proof fn law_search_sound(m: ByteTree, h: nat, k: Seq<u8>, v: Seq<u8>)
    requires
        sorted_tree(m, h, None, None),
        strict(m.contents()),
        looked_up(seek(m, h, k), k, Some(v)),
    ensures
        bytetree::get(m.contents(), k) == Some(v),
{
    let e = seek(m, h, k);
    let (a, b) = lemma_seek_part(m, h, None, None, k);
    let c = m.contents();
    lemma_part_rising(m, h, k, a, b);
    lemma_looked_up(e, k, Some(v));
    let i = choose|i: int| 0 <= i < e.len() && #[trigger] e[i] == (k, v);
    assert(c[a.len() + i] == e[i]);
    lemma_get_at(c, a.len() + i);
}

/// A key that the tree does not have is not found.
pub proof fn law_search_absent(m: ByteTree, h: nat, k: Seq<u8>, r: Option<Seq<u8>>)
    requires
        sorted_tree(m, h, None, None),
        bytetree::get(m.contents(), k) is None,
        looked_up(seek(m, h, k), k, r),
    ensures
        r is None,
{
    let e = seek(m, h, k);
    let (a, b) = lemma_seek_part(m, h, None, None, k);
    let c = m.contents();
    lemma_contents(m, h, None, None);
    lemma_part_rising(m, h, k, a, b);
    lemma_looked_up(e, k, r);
    if let Some(v) = r {
        let i = choose|i: int| 0 <= i < e.len() && #[trigger] e[i] == (k, v);
        assert(c[a.len() + i] == e[i]);
        bytetree::lemma_found(c, k, a.len() + i);
    }
}

/// An insertion puts its value under its key and changes nothing else, where no separator equals
/// the key and no key occurs twice.
pub proof fn law_insert(m: ByteTree, h: nat, k: Seq<u8>, v: Seq<u8>, t: int)
    requires
        sorted_tree(m, h, None, None),
        t >= 2,
        can_insert(m, h, k, v, t),
        clear(insert_start(m, t), k),
        strict(m.contents()),
    ensures
        sorted_tree(inserted(m, h, k, v, t), insert_height(m, h, t), None, None),
        inserted(m, h, k, v, t).contents() == bytetree::put(m.contents(), k, v),
        strict(inserted(m, h, k, v, t).contents()),
{
    let s = insert_start(m, t);
    let g = insert_height(m, h, t);
    if m.count() == 2 * t - 1 {
        lemma_split_root(m, h, t);
    }
    lemma_edit(s, g, None, None, k, Some(v), t);
    lemma_edit_clear(s, g, None, None, k, Some(v), t);
    law_strict(m.contents(), k, Some(v));
}

/// An insertion keeps the order of the entries and the depth of the leaves, and changes one
/// entry or adds one, whatever the separators are.
pub proof fn law_insert_any(m: ByteTree, h: nat, k: Seq<u8>, v: Seq<u8>, t: int)
    requires
        sorted_tree(m, h, None, None),
        t >= 2,
        can_insert(m, h, k, v, t),
    ensures
        sorted_tree(inserted(m, h, k, v, t), insert_height(m, h, t), None, None),
        edited(m.contents(), inserted(m, h, k, v, t).contents(), k, Some(v)),
{
    if m.count() == 2 * t - 1 {
        lemma_split_root(m, h, t);
    }
    lemma_edit(insert_start(m, t), insert_height(m, h, t), None, None, k, Some(v), t);
}

/// What was put under a key is found under it, where the lookup ends at the leaf that the
/// insertion reached and no key occurs twice in that leaf.
pub proof fn law_insert_search(
    m: ByteTree,
    h: nat,
    k: Seq<u8>,
    v: Seq<u8>,
    t: int,
    r: Option<Seq<u8>>,
)
    requires
        sorted_tree(m, h, None, None),
        t >= 2,
        can_insert(m, h, k, v, t),
        steered(insert_start(m, t), insert_height(m, h, t), k, t, true),
        strict(edit_leaf(insert_start(m, t), insert_height(m, h, t), k, t, true)),
        looked_up(seek(inserted(m, h, k, v, t), insert_height(m, h, t), k), k, r),
    ensures
        r == Some(v),
{
    let s = insert_start(m, t);
    let g = insert_height(m, h, t);
    if m.count() == 2 * t - 1 {
        lemma_split_root(m, h, t);
    }
    lemma_steered(s, g, None, None, k, Some(v), t);
    let e = edit_leaf(s, g, k, t, true);
    law_strict(e, k, Some(v));
    law_bytes_get_put(e, k, v);
    lemma_look(bytetree::put(e, k, v), k, r);
}

/// In a leaf in which no key occurs twice a lookup finds what the leaf has.
proof fn lemma_look(e: Seq<Entry>, k: Seq<u8>, r: Option<Seq<u8>>)
    requires
        strict(e),
        looked_up(e, k, r),
    ensures
        r == bytetree::get(e, k),
{
    lemma_strict_rising(e);
    lemma_looked_up(e, k, r);
    if let Some(v) = r {
        let i = choose|i: int| 0 <= i < e.len() && #[trigger] e[i] == (k, v);
        lemma_get_at(e, i);
    }
}

/// A key that is new to the tree, and that no separator equals, is found after its insertion.
pub proof fn law_insert_search_new(
    m: ByteTree,
    h: nat,
    k: Seq<u8>,
    v: Seq<u8>,
    t: int,
    r: Option<Seq<u8>>,
)
    requires
        sorted_tree(m, h, None, None),
        t >= 2,
        can_insert(m, h, k, v, t),
        clear(m, k),
        strict(m.contents()),
        bytetree::get(m.contents(), k) is None,
        looked_up(seek(inserted(m, h, k, v, t), insert_height(m, h, t), k), k, r),
    ensures
        r == Some(v),
{
    let s = insert_start(m, t);
    let g = insert_height(m, h, t);
    if m.count() == 2 * t - 1 {
        lemma_split_root(m, h, t);
        lemma_split_clear(m, h, t, k);
    }
    law_insert(m, h, k, v, t);
    lemma_edit_clear(s, g, None, None, k, Some(v), t);
    law_search(inserted(m, h, k, v, t), g, k, r);
    law_bytes_get_put(m.contents(), k, v);
}

proof fn lemma_split_clear(m: ByteTree, h: nat, t: int, k: Seq<u8>)
    requires
        sorted_tree(m, h, None, None),
        t >= 2,
        m.count() == 2 * t - 1,
        clear(m, k),
        bytetree::get(m.contents(), k) is None,
    ensures
        clear(split_root(m, t), k),
{
    let p = split_at(m, t);
    let (a, s, b) = cut(m, p);
    match m {
        Tree::Leaf(e) => {
            if e[p].0 == k {
                bytetree::lemma_found(e, k, p);
            }
        },
        Tree::Internal(keys, ch) => {
            let k1 = keys.take(p);
            let c1 = ch.take(p + 1);
            let k2 = keys.skip(p + 1);
            let c2 = ch.skip(p + 1);
            assert(keys[p] != k);
            assert forall|i: int| 0 <= i < k1.len() implies #[trigger] k1[i] != k by {
                assert(k1[i] == keys[i]);
            }
            assert forall|i: int| 0 <= i < c1.len() implies clear(#[trigger] c1[i], k) by {
                assert(c1[i] == ch[i]);
            }
            assert forall|i: int| 0 <= i < k2.len() implies #[trigger] k2[i] != k by {
                assert(k2[i] == keys[p + 1 + i]);
            }
            assert forall|i: int| 0 <= i < c2.len() implies clear(#[trigger] c2[i], k) by {
                assert(c2[i] == ch[p + 1 + i]);
            }
            assert(clear(a, k) && clear(b, k));
        },
    }
    let c = seq![a, b];
    assert forall|i: int| 0 <= i < c.len() implies clear(#[trigger] c[i], k) by {}
}

/// A removal takes its key out, hands back what was under it, and changes nothing else, where no
/// separator equals the key and no key occurs twice.
pub proof fn law_remove(m: ByteTree, h: nat, k: Seq<u8>, t: int)
    requires
        sorted_tree(m, h, None, None),
        t >= 2,
        can_edit(m, h, k, None, t),
        clear(m, k),
        strict(m.contents()),
    ensures
        sorted_tree(removed(m, h, k, t), removed_height(m, h, k, t), None, None),
        removed(m, h, k, t).contents() == bytetree::del(m.contents(), k),
        strict(removed(m, h, k, t).contents()),
        bytetree::get(edit_leaf(m, h, k, t, false), k) == bytetree::get(m.contents(), k),
{
    lemma_edit(m, h, None, None, k, None, t);
    lemma_edit_clear(m, h, None, None, k, None, t);
    lemma_edit_leaf(m, h, None, None, k, None, t);
    lemma_trimmed(edit(m, h, k, None, t), h);
    law_strict(m.contents(), k, None);
}

/// A removal keeps the order of the entries and the depth of the leaves, and takes out at most
/// one entry, one with its key, whatever the separators are.
pub proof fn law_remove_any(m: ByteTree, h: nat, k: Seq<u8>, t: int)
    requires
        sorted_tree(m, h, None, None),
        t >= 2,
        can_edit(m, h, k, None, t),
    ensures
        sorted_tree(removed(m, h, k, t), removed_height(m, h, k, t), None, None),
        edited(m.contents(), removed(m, h, k, t).contents(), k, None),
{
    lemma_edit(m, h, None, None, k, None, t);
    lemma_trimmed(edit(m, h, k, None, t), h);
}

/// A key that no separator equals is not found after its removal.
pub proof fn law_remove_search(m: ByteTree, h: nat, k: Seq<u8>, t: int, r: Option<Seq<u8>>)
    requires
        sorted_tree(m, h, None, None),
        t >= 2,
        can_edit(m, h, k, None, t),
        clear(m, k),
        strict(m.contents()),
        looked_up(seek(removed(m, h, k, t), removed_height(m, h, k, t), k), k, r),
    ensures
        r is None,
{
    law_remove(m, h, k, t);
    law_bytes_get_del(m.contents(), k);
    law_search_absent(removed(m, h, k, t), removed_height(m, h, k, t), k, r);
}

/// A key is not found after its removal, where the lookup ends at the leaf that the removal
/// reached and no key occurs twice in that leaf.
pub proof fn law_remove_search_leaf(m: ByteTree, h: nat, k: Seq<u8>, t: int, r: Option<Seq<u8>>)
    requires
        sorted_tree(m, h, None, None),
        t >= 2,
        can_edit(m, h, k, None, t),
        steered(m, h, k, t, false),
        strict(edit_leaf(m, h, k, t, false)),
        looked_up(seek(removed(m, h, k, t), removed_height(m, h, k, t), k), k, r),
    ensures
        r is None,
{
    lemma_steered(m, h, None, None, k, None, t);
    let e = edit_leaf(m, h, k, t, false);
    law_strict(e, k, None);
    law_bytes_get_del(e, k);
    lemma_edit(m, h, None, None, k, None, t);
    if let Tree::Internal(keys, ch) = edit(m, h, k, None, t) {
        if keys.len() == 0 {
            lemma_left_route(keys, k);
        }
    }
    lemma_look(bytetree::del(e, k), k, r);
}

/// A walk from a key that no separator equals meets the entries from that key on.
pub proof fn law_walk(m: ByteTree, h: nat, k: Seq<u8>)
    requires
        sorted_tree(m, h, None, None),
        clear(m, k),
    ensures
        tail_from(m, h, k) == m.contents().skip(bytetree::place(m.contents(), k) as int),
{
    lemma_tail_from(m, h, None, None, k);
}

/// From degree three on an insertion runs into no empty leaf, and leaves every leaf but the root
/// with at least `t - 1` entries and every inner node with at least two children.
pub proof fn law_insert_lean(m: ByteTree, h: nat, k: Seq<u8>, v: Seq<u8>, t: int)
    requires
        sorted_tree(m, h, None, None),
        t >= 3,
        lean(m, h, t),
        m is Internal ==> m.count() >= 1,
    ensures
        deals(insert_start(m, t), insert_height(m, h, t), k, t, true),
        lean(inserted(m, h, k, v, t), insert_height(m, h, t), t),
        inserted(m, h, k, v, t) is Internal ==> inserted(m, h, k, v, t).count() >= 1,
{
    let s = insert_start(m, t);
    let g = insert_height(m, h, t);
    if m.count() == 2 * t - 1 {
        lemma_split_root(m, h, t);
        lemma_split_lean(m, h, t);
    }
    lemma_lean_edit(s, g, None, None, k, Some(v), t);
}

proof fn lemma_split_lean(m: ByteTree, h: nat, t: int)
    requires
        sorted_tree(m, h, None, None),
        t >= 3,
        m.count() == 2 * t - 1,
        lean(m, h, t),
    ensures
        lean(split_root(m, t), h + 1, t),
{
    let p = split_at(m, t);
    let (a, s, b) = cut(m, p);
    if let Tree::Internal(keys, ch) = m {
        let c1 = ch.take(p + 1);
        let c2 = ch.skip(p + 1);
        assert forall|i: int| 0 <= i < c1.len() implies (#[trigger] c1[i]).count() >= least(c1[i], t)
            && lean(c1[i], (h - 1) as nat, t) by {
            assert(c1[i] == ch[i]);
        }
        assert forall|i: int| 0 <= i < c2.len() implies (#[trigger] c2[i]).count() >= least(c2[i], t)
            && lean(c2[i], (h - 1) as nat, t) by {
            assert(c2[i] == ch[p + 1 + i]);
        }
    }
    assert(lean(a, h, t) && lean(b, h, t));
    let c = seq![a, b];
    assert forall|i: int| 0 <= i < c.len() implies (#[trigger] c[i]).count() >= least(c[i], t) && lean(
        c[i],
        h,
        t,
    ) by {}
}

/// From degree three on the removal of a key that no separator equals runs into no empty leaf,
/// and leaves every leaf but the root with at least `t - 1` entries and every inner node with at
/// least two children.
pub proof fn law_remove_lean(m: ByteTree, h: nat, k: Seq<u8>, t: int)
    requires
        sorted_tree(m, h, None, None),
        t >= 3,
        lean(m, h, t),
        m is Internal ==> m.count() >= 1,
        clear(m, k),
    ensures
        deals(m, h, k, t, false),
        lean(removed(m, h, k, t), removed_height(m, h, k, t), t),
        removed(m, h, k, t) is Internal ==> removed(m, h, k, t).count() >= 1,
{
    lemma_lean_edit(m, h, None, None, k, None, t);
    let e = edit(m, h, k, None, t);
    if let Tree::Internal(keys, ch) = e {
        if keys.len() == 0 {
            lemma_edit_shape(m, h, k, t);
            assert(ch[0].count() >= least(ch[0], t));
        }
    }
}

proof fn lemma_edit_shape(m: ByteTree, h: nat, k: Seq<u8>, t: int)
    requires
        sorted_tree(m, h, None, None),
        t >= 3,
        lean(m, h, t),
        m is Internal ==> m.count() >= 1,
        clear(m, k),
    ensures
        edit(m, h, k, None, t) matches Tree::Internal(keys, ch) ==> ch.len() == keys.len() + 1,
{
    if let Tree::Internal(keys, ch) = m {
        lemma_lean_readied(keys, ch, h, None, None, k, t, false);
        lemma_readied(keys, ch, h, None, None, k, t, false);
    }
}

/// An insertion leaves what a lookup of another key finds, where no separator equals either key
/// and no key occurs twice.
pub proof fn law_insert_search_other(
    m: ByteTree,
    h: nat,
    k: Seq<u8>,
    v: Seq<u8>,
    t: int,
    j: Seq<u8>,
    r: Option<Seq<u8>>,
)
    requires
        sorted_tree(m, h, None, None),
        t >= 2,
        can_insert(m, h, k, v, t),
        clear(insert_start(m, t), k),
        strict(m.contents()),
        j != k,
        clear(inserted(m, h, k, v, t), j),
        looked_up(seek(inserted(m, h, k, v, t), insert_height(m, h, t), j), j, r),
    ensures
        r == bytetree::get(m.contents(), j),
{
    law_insert(m, h, k, v, t);
    law_search(inserted(m, h, k, v, t), insert_height(m, h, t), j, r);
    law_bytes_get_other(m.contents(), k, Some(v), j);
}

/// A removal leaves what a lookup of another key finds, where no separator equals either key and
/// no key occurs twice.
pub proof fn law_remove_search_other(
    m: ByteTree,
    h: nat,
    k: Seq<u8>,
    t: int,
    j: Seq<u8>,
    r: Option<Seq<u8>>,
)
    requires
        sorted_tree(m, h, None, None),
        t >= 2,
        can_edit(m, h, k, None, t),
        clear(m, k),
        strict(m.contents()),
        j != k,
        clear(removed(m, h, k, t), j),
        looked_up(seek(removed(m, h, k, t), removed_height(m, h, k, t), j), j, r),
    ensures
        r == bytetree::get(m.contents(), j),
{
    law_remove(m, h, k, t);
    law_search(removed(m, h, k, t), removed_height(m, h, k, t), j, r);
    law_bytes_get_other(m.contents(), k, None, j);
}

/// The entries of a tree stand in the order of their keys.
pub proof fn law_in_order(m: ByteTree, h: nat)
    requires
        sorted_tree(m, h, None, None),
    ensures
        bytetree::rising(m.contents()),
{
    lemma_contents(m, h, None, None);
}

/// A walk over entries in order reaches exactly those that its end admits.
pub proof fn law_reach(e: Seq<Entry>, b: Bound<Key>)
    requires
        bytetree::rising(e),
    ensures
        reach(e, b) <= e.len(),
        forall|i: int| 0 <= i < e.len() ==> (reaches(b, (#[trigger] e[i]).0) <==> i < reach(e, b)),
    decreases e.len(),
{
    lemma_bytes_order();
    if e.len() > 0 {
        let d = e.drop_first();
        law_reach(d, b);
        assert forall|i: int| 0 <= i < e.len() implies (reaches(b, (#[trigger] e[i]).0) <==> i < reach(e, b)) by {
            if i > 0 {
                assert(d[i - 1] == e[i]);
                assert(bytes_le(e[0].0, e[i].0));
            }
        }
    }
}

// Pages --------------------------------------------------------------------------------

/// A page type is found again from its byte.
pub proof fn law_type_byte(t: PageType)
    ensures
        typed(type_byte(t)),
        type_of(type_byte(t)) == t,
{
}

// Windows --------------------------------------------------------------------------------

/// The first `i + 1` of the parts that a node is dealt out to, as one node.
spec fn first_parts(v: NodeView, ids: Seq<PageId>, i: int) -> NodeView {
    let n = ids.len() as int;
    match v {
        NodeView::Leaf(e, _) => NodeView::Leaf(
            e.take(bytetree::begin(e.len() as int, n, i + 1)),
            part_view(v, ids, i)->Leaf_1,
        ),
        NodeView::Internal(k, c) => {
            let b = bytetree::begin(k.len() - (n - 1), n, i + 1) + i;
            NodeView::Internal(k.take(b), c.take(b + 1))
        },
    }
}

proof fn lemma_first_parts(
    v: NodeView,
    keys: Seq<Seq<u8>>,
    c: Seq<PageId>,
    p: Map<PageId, Seq<u8>>,
    l: int,
    ids: Seq<PageId>,
    i: int,
)
    requires
        can_deal_view(v, ids.len() as int),
        0 <= l,
        0 <= i < ids.len(),
        forall|j: int| 0 <= j < ids.len() ==> #[trigger] node_at(c, p, l + j) == part_view(v, ids, j),
        forall|j: int| 0 <= j < ids.len() - 1 ==> #[trigger] keys[l + j] == fence_view(
            v,
            ids.len() as int,
            j,
        ),
    ensures
        joined_pages(keys, c, p, l, l + i) == first_parts(v, ids, i),
    decreases i,
{
    let n = ids.len() as int;
    let t = match v {
        NodeView::Leaf(e, _) => e.len() as int,
        NodeView::Internal(k, _) => k.len() - (n - 1),
    };
    bytetree::lemma_begin(t, n, i);
    bytetree::lemma_begin(t, n, i + 1);
    assert(node_at(c, p, l + i) == part_view(v, ids, i));
    if i == 0 {
        match v {
            NodeView::Leaf(e, _) => {
                assert(e.subrange(0, bytetree::begin(t, n, 1)) =~= e.take(bytetree::begin(t, n, 1)));
            },
            NodeView::Internal(k, kids) => {
                let b = bytetree::begin(t, n, 1);
                assert(k.subrange(0, b) =~= k.take(b));
                assert(kids.subrange(0, b + 1) =~= kids.take(b + 1));
            },
        }
    } else {
        lemma_first_parts(v, keys, c, p, l, ids, i - 1);
        let j = i - 1;
        assert(keys[l + j] == fence_view(v, n, j));
        match v {
            NodeView::Leaf(e, _) => {
                let a = bytetree::begin(t, n, i);
                let b = bytetree::begin(t, n, i + 1);
                assert(e.take(a) + e.subrange(a, b) =~= e.take(b));
            },
            NodeView::Internal(k, kids) => {
                let a = bytetree::begin(t, n, i) + i;
                let b = bytetree::begin(t, n, i + 1) + i;
                assert(k.take(a - 1).push(k[a - 1]) + k.subrange(a, b) =~= k.take(b));
                assert(kids.take(a) + kids.subrange(a, b + 1) =~= kids.take(b + 1));
            },
        }
    }
}

/// A part that is written to its page is read back from it, and holds its share.
proof fn lemma_part_read(v: NodeView, ids: Seq<PageId>, page: Seq<u8>, j: int)
    requires
        dealable(v),
        can_deal_view(v, ids.len() as int),
        0 <= j < ids.len(),
        forall|i: int| 0 <= i < ids.len() ==> #[trigger] ids[i] != NULL_PAGE,
        part_fits(v, ids.len() as int, j),
        page == part_view(v, ids, j).image(),
    ensures
        legible(page),
        node_of(page) == part_view(v, ids, j),
        view_count(part_view(v, ids, j)) == bytetree::share(
            match v {
                NodeView::Leaf(e, _) => e.len() as int,
                NodeView::Internal(k, _) => k.len() - (ids.len() - 1),
            },
            ids.len() as int,
            j,
        ),
{
    let n = ids.len() as int;
    let total = match v {
        NodeView::Leaf(e, _) => e.len() as int,
        NodeView::Internal(k, _) => k.len() - (n - 1),
    };
    lemma_part_dealable(v, ids, j);
    lemma_parts_fit(v, ids, j);
    lemma_round_trip(part_view(v, ids, j));
    bytetree::lemma_begin(total, n, j);
    bytetree::lemma_begin(total, n, j + 1);
}

/// Rebalancing a window of neighbours on pages keeps what they hold together: the keys, with those
/// of the parent between them, the entries, the children and the link of the last leaf. The nodes
/// that come out are as even as can be, larger ones first.
#[verifier::rlimit(50)]
pub proof fn law_window_kept(
    keys: Seq<Seq<u8>>,
    c: Seq<PageId>,
    p: Map<PageId, Seq<u8>>,
    q: Map<PageId, Seq<u8>>,
    l: int,
    r: int,
    n: int,
    fresh: PageId,
)
    requires
        neighbours(c, p, l, r),
        r <= keys.len(),
        1 <= n <= r - l + 2,
        r - l <= n,
        can_deal_view(joined_pages(keys, c, p, l, r), n),
        forall|i: int| 0 <= i < n ==> #[trigger] part_fits(joined_pages(keys, c, p, l, r), n, i),
        parts_written(c, p, q, l, r, n, fresh, joined_pages(keys, c, p, l, r)),
    ensures
        ({
            let v = joined_pages(keys, c, p, l, r);
            let k2 = keys.take(l) + Seq::new((n - 1) as nat, |i: int| fence_view(v, n, i)) + keys.skip(r);
            let c2 = c.take(l) + part_ids(c, l, r, n, fresh) + c.skip(r + 1);
            let total = match v {
                NodeView::Leaf(e, _) => e.len() as int,
                NodeView::Internal(k, _) => k.len() - (n - 1),
            };
            &&& joined_pages(k2, c2, q, l, l + n - 1) == v
            &&& forall|i: int|
                0 <= i < n ==> {
                    &&& legible(q[c2[l + i]])
                    &&& view_count(#[trigger] node_at(c2, q, l + i)) == bytetree::share(total, n, i)
                }
        }),
{
    let v = joined_pages(keys, c, p, l, r);
    let ids = part_ids(c, l, r, n, fresh);
    let k2 = keys.take(l) + Seq::new((n - 1) as nat, |i: int| fence_view(v, n, i)) + keys.skip(r);
    let c2 = c.take(l) + ids + c.skip(r + 1);
    let total = match v {
        NodeView::Leaf(e, _) => e.len() as int,
        NodeView::Internal(k, _) => k.len() - (n - 1),
    };
    lemma_joined_pages(keys, c, p, l, r);
    assert forall|j: int| 0 <= j < ids.len() implies #[trigger] ids[j] != NULL_PAGE by {
        if j <= r - l {
            assert(c[l + j] != NULL_PAGE);
        }
    }
    assert forall|j: int| 0 <= j < n implies #[trigger] node_at(c2, q, l + j) == part_view(v, ids, j)
        && legible(q[c2[l + j]]) && view_count(node_at(c2, q, l + j)) == bytetree::share(total, n, j) by {
        assert(c2[l + j] == ids[j]);
        assert(part_fits(v, n, j));
        lemma_part_read(v, ids, q[ids[j]], j);
    }
    assert forall|j: int| 0 <= j < n - 1 implies #[trigger] k2[l + j] == fence_view(v, n, j) by {}
    lemma_first_parts(v, k2, c2, q, l, ids, n - 1);
    bytetree::lemma_begin(total, n, n);
    match v {
        NodeView::Leaf(e, _) => {
            assert(e.take(e.len() as int) =~= e);
        },
        NodeView::Internal(k, kids) => {
            assert(k.take(k.len() as int) =~= k);
            assert(kids.take(kids.len() as int) =~= kids);
        },
    }
}

// Writing back ---------------------------------------------------------------------------

/// One call of a pool.
pub enum Call<E> {
    /// Page `0` is asked for, with this outcome.
    Fetch(PageId, Result<int, BpmError<E>>),
    /// A guard to read frame `0` is given up.
    Release(int),
    /// A guard to write frame `0` is given up.
    ReleaseWritten(int),
    /// The page in frame `0` is written.
    Fill(int),
}

/// The call leads from one state of a pool to another.
pub open spec fn leads<M: Medium>(
    a: BufferPoolManager<M>,
    call: Call<M::Error>,
    b: BufferPoolManager<M>,
) -> bool {
    match call {
        Call::Fetch(id, r) => b.fetched(&a, id, r),
        Call::Release(f) => b.let_go(&a, f) && b.dirty(f) == a.dirty(f),
        Call::ReleaseWritten(f) => b.let_go(&a, f) && b.dirty(f),
        Call::Fill(_) => forall|g: int| 0 <= g < a.frames() ==> #[trigger] b.dirty(g) == a.dirty(g),
    }
}

/// While a page stays in its frame, the frame has to be written back before it makes room if and
/// only if a guard to write it was given up since the page was brought in.
pub proof fn law_written_back<M: Medium>(
    pools: Seq<BufferPoolManager<M>>,
    calls: Seq<Call<M::Error>>,
    f: int,
)
    requires
        pools.len() == calls.len() + 1,
        0 <= f < pools[0].frames(),
        pools[0].at(f) is Some,
        !pools[0].dirty(f),
        forall|i: int|
            0 <= i < calls.len() ==> {
                &&& leads(pools[i], #[trigger] calls[i], pools[i + 1])
                &&& pools[i + 1].frames() == pools[0].frames()
                &&& pools[i + 1].at(f) == pools[0].at(f)
            },
    ensures
        pools.last().dirty(f) <==> exists|i: int|
            0 <= i < calls.len() && #[trigger] calls[i] == Call::<M::Error>::ReleaseWritten(f),
    decreases calls.len(),
{
    if calls.len() > 0 {
        let n = calls.len() - 1;
        let a = pools[n];
        let b = pools[n + 1];
        let p = pools.drop_last();
        let c = calls.drop_last();
        assert forall|i: int| 0 <= i < c.len() implies {
            &&& leads(p[i], #[trigger] c[i], p[i + 1])
            &&& p[i + 1].frames() == p[0].frames()
            &&& p[i + 1].at(f) == p[0].at(f)
        } by {
            assert(c[i] == calls[i]);
        }
        law_written_back(p, c, f);
        assert(p.last() == a);
        assert(leads(a, calls[n], b));
        if n > 0 {
            assert(calls[n - 1] == c[n - 1]);
            assert(a.at(f) == pools[0].at(f));
        }
        let w = Call::<M::Error>::ReleaseWritten(f);
        if exists|i: int| 0 <= i < c.len() && #[trigger] c[i] == w {
            let i = choose|i: int| 0 <= i < c.len() && #[trigger] c[i] == w;
            assert(calls[i] == w);
        }
        if exists|i: int| 0 <= i < calls.len() && #[trigger] calls[i] == w {
            let i = choose|i: int| 0 <= i < calls.len() && #[trigger] calls[i] == w;
            if i < n {
                assert(c[i] == w);
            }
        }
        match calls[n] {
            Call::Fetch(id, r) => {
                if !a.tabled(id) && !a.full() {
                    assert(b.at(f) == a.at(f));
                    if a.giver() == f {
                        if let Ok(g) = r {
                            assert(b.loaded(&a, id, g));
                        }
                    }
                }
                assert(b.dirty(f) == a.dirty(f));
            },
            _ => {},
        }
    }
}

} // verus!
