//! A B+ tree that lends more freely: a node in need takes from a left neighbour that is
//! itself only just full enough.
use crate::balance::{
    lemma_child_changed, lemma_rebalanced, lemma_room, lemma_sized_child, lemma_split, rebalanced,
    sized,
};
use crate::entries::{del, get, lemma_rank, present, put, sorted};
pub use crate::cursor::{Bound, LeafIter};
use crate::cursor::{lemma_proper, range};
use crate::node::{pairs, split_point, trees, Internal, Leaf, Node};
use crate::order::{lawful_key, lemma_total_order, total_order};
use crate::outline::{lines_of, print_node, views, Line, Outline};
use crate::shape::{
    drained, drained_row, grown, inserted, inserted_height, lack, moved, nearer, trimmed,
    trimmed_height,
};
use crate::tree::{
    child_hi, child_lo, hi_ok, lemma_contents, lemma_descend, lemma_flat_at, lemma_flat_one,
    lemma_leaf_change, lemma_route, lo_ok, route, Tree,
};
use vstd::prelude::*;

verus! {

/// Deleting `k` from `m` never runs into a node that has to be filled up and has no
/// neighbour to fill it from.
pub open spec fn removable<K: PartialOrd, V>(m: Tree<K, V>, h: nat, k: K, t: int) -> bool
    decreases h, 1int, 0int, 0int,
{
    match m {
        Tree::Leaf(_) => true,
        Tree::Internal(keys, ch) => h > 0 && settles(keys, ch, h, route(keys, k) as int, k, t),
    }
}

/// Filling child `ci` up until it holds `t` comes to an end, and `k` can be deleted from
/// the child.
pub open spec fn settles<K: PartialOrd, V>(
    keys: Seq<K>,
    ch: Seq<Tree<K, V>>,
    h: nat,
    ci: int,
    k: K,
    t: int,
) -> bool
    decreases h, 0int, ch.len(), lack(ch, ci, t),
{
    if h == 0 || !(0 <= ci < ch.len()) {
        false
    } else if ch[ci].count() >= t {
        removable(ch[ci], (h - 1) as nat, k, t)
    } else if ch.len() < 2 {
        false
    } else {
        match rebalanced(keys, ch, ci, t, t - 1) {
            Tree::Leaf(_) => false,
            Tree::Internal(k2, c2) => {
                nearer(ch, ci, c2, t) && settles(k2, c2, h, moved(ch, ci, c2), k, t)
            },
        }
    }
}

/// Some tree of a row holds at least `t - 1`.
pub open spec fn some_wide<K, V>(ch: Seq<Tree<K, V>>, t: int) -> bool {
    exists|i: int| 0 <= i < ch.len() && (#[trigger] ch[i]).count() >= t - 1
}

/// Some child holds at least `t - 1`.
pub open spec fn wide<K, V>(m: Tree<K, V>, t: int) -> bool {
    m matches Tree::Internal(_, ch) && some_wide(ch, t)
}

/// Some tree of a row has a leaf that holds at least `t - 1`.
pub open spec fn some_wide_below<K, V>(ch: Seq<Tree<K, V>>, h: nat, t: int) -> bool
    decreases h, 1int,
{
    exists|i: int| 0 <= i < ch.len() && wide_below(#[trigger] ch[i], h, t)
}

/// Some node above the leaves has a leaf that holds at least `t - 1`.
pub open spec fn wide_below<K, V>(m: Tree<K, V>, h: nat, t: int) -> bool
    decreases h, 0int,
{
    if h == 0 {
        true
    } else if h == 1 {
        wide(m, t)
    } else {
        m matches Tree::Internal(_, ch) && some_wide_below(ch, (h - 1) as nat, t)
    }
}

/// How many neighbours a child may have to take in before it holds `t`.
pub open spec fn need(c: nat, t: int) -> int {
    if c >= t {
        0
    } else if c >= t - 1 {
        1
    } else {
        2
    }
}

/// A node that can fill its child `ci` up and keep `low` separators.
pub open spec fn ready<K, V>(
    keys: Seq<K>,
    ch: Seq<Tree<K, V>>,
    h: nat,
    ci: int,
    t: int,
    low: int,
) -> bool {
    ||| ch[ci].count() >= t
    ||| {
        &&& keys.len() >= 1
        &&& keys.len() >= low + need(ch[ci].count(), t)
        &&& keys.len() == 1 && h == 1 ==> ch[0].count() >= t - 1 || ch[1].count() >= t - 1
    }
}

/// One step of filling up leaves a node that is still ready.
proof fn lemma_step<K: PartialOrd, V>(
    keys: Seq<K>,
    ch: Seq<Tree<K, V>>,
    h: nat,
    lo: Option<K>,
    hi: Option<K>,
    t: int,
    low: int,
    k: K,
)
    requires
        total_order::<K>(),
        Tree::Internal(keys, ch).wf(h, lo, hi),
        t >= 3,
        -1 <= low <= t - 2,
        sized(Tree::Internal(keys, ch), h, t - 2, None),
        ready(keys, ch, h, route(keys, k) as int, t, low),
        route(keys, k) < ch.len(),
        ch[route(keys, k) as int].count() < t,
    ensures
        ch.len() >= 2,
        rebalanced(keys, ch, route(keys, k) as int, t, t - 1) matches Tree::Internal(k2, c2) && {
            &&& sized(Tree::Internal(k2, c2), h, t - 2, None)
            &&& ready(k2, c2, h, route(k2, k) as int, t, low)
            &&& k2.len() >= low
        },
{
    let ci = route(keys, k) as int;
    lemma_rebalanced(keys, ch, h, lo, hi, t, t - 1, k);
    let j = if ci + 1 < ch.len() {
        ci + 1
    } else {
        ci - 1
    };
    lemma_sized_child(keys, ch, h, t - 2, None, ci);
    lemma_sized_child(keys, ch, h, t - 2, None, j);
    let n = rebalanced(keys, ch, ci, t, t - 1);
    if let Tree::Internal(k2, c2) = n {
        lemma_route(k2, k);
    }
}

/// With a minimum degree of three or more every key can be deleted.
pub proof fn lemma_settles<K: PartialOrd, V>(
    keys: Seq<K>,
    ch: Seq<Tree<K, V>>,
    h: nat,
    lo: Option<K>,
    hi: Option<K>,
    t: int,
    low: int,
    k: K,
)
    requires
        total_order::<K>(),
        Tree::Internal(keys, ch).wf(h, lo, hi),
        lo_ok(lo, k),
        hi_ok(k, hi),
        t >= 3,
        -1 <= low <= t - 2,
        sized(Tree::Internal(keys, ch), h, t - 2, None),
        ready(keys, ch, h, route(keys, k) as int, t, low),
    ensures
        settles(keys, ch, h, route(keys, k) as int, k, t),
    decreases h, ch.len(), lack(ch, route(keys, k) as int, t),
{
    let ci = route(keys, k) as int;
    let v: V = arbitrary();
    lemma_descend(keys, ch, h, lo, hi, k, v);
    if ch[ci].count() >= t {
        lemma_sized_child(keys, ch, h, t - 2, None, ci);
        if let Tree::Internal(k1, c1) = ch[ci] {
            let lo1 = child_lo(keys, ci, lo);
            let hi1 = child_hi(keys, ci, hi);
            lemma_settles(k1, c1, (h - 1) as nat, lo1, hi1, t, t - 2, k);
        }
        assert(removable(ch[ci], (h - 1) as nat, k, t));
    } else {
        lemma_step(keys, ch, h, lo, hi, t, low, k);
        lemma_rebalanced(keys, ch, h, lo, hi, t, t - 1, k);
        if let Tree::Internal(k2, c2) = rebalanced(keys, ch, ci, t, t - 1) {
            lemma_settles(k2, c2, h, lo, hi, t, low, k);
            assert(settles(k2, c2, h, route(k2, k) as int, k, t));
            assert(settles(keys, ch, h, ci, k, t));
        }
    }
}

/// A removal met a node that has to be filled up and has no neighbour to fill it from.
#[derive(Clone, Copy, Debug, PartialEq, Eq)]
pub struct Stuck;

/// A map from keys to values, held in order.
pub struct BPlusTree<K: Ord + Clone, V> {
    t: usize,
    root: Box<Node<K, V>>,
    len: usize,
    height: Ghost<nat>,
}

/// A search tree of minimum degree `t` whose leaves are all at depth `h`. Every node but
/// the root holds at least `t - 2`; from degree three on an inner root has two children,
/// and where they are leaves one of them holds `t - 1`.
pub open spec fn steady<K: PartialOrd, V>(m: Tree<K, V>, h: nat, t: int) -> bool {
    &&& m.wf(h, None, None)
    &&& sized(m, h, t - 2, None)
    &&& t >= 3 && h >= 1 ==> m.count() >= 1
    &&& t >= 3 && h == 1 ==> wide(m, t)
}

impl<K: Ord + Clone, V> BPlusTree<K, V> {
    /// The entries of the map, in key order.
    pub closed spec fn view(&self) -> Seq<(K, V)> {
        self.root.tree().contents()
    }

    /// The tree that holds the map.
    pub closed spec fn tree(&self) -> Tree<K, V> {
        self.root.tree()
    }

    /// The depth of the leaves.
    pub closed spec fn height(&self) -> nat {
        self.height@
    }

    /// The minimum degree.
    pub closed spec fn degree(&self) -> int {
        self.t as int
    }

    /// What every operation keeps.
    pub closed spec fn wf(&self) -> bool {
        &&& lawful_key::<K>()
        &&& 2 <= self.t
        &&& 2 * self.t <= usize::MAX
        &&& self.len == self@.len()
        &&& steady(self.root.tree(), self.height@, self.t as int)
    }

    /// The map is its tree's entries, in order and without a key twice, and the tree is steady.
    pub proof fn lemma_wf(&self)
        requires
            self.wf(),
        ensures
            total_order::<K>(),
            self.degree() >= 2,
            self@ == self.tree().contents(),
            sorted(self@),
            steady(self.tree(), self.height(), self.degree()),
    {
        lemma_total_order::<K>();
        lemma_contents(self.tree(), self.height(), None, None);
    }

    /// `k` can be removed: from degree three on every key can.
    pub open spec fn can_remove(&self, k: K) -> bool {
        self.degree() < 3 ==> removable(self.tree(), self.height(), k, self.degree())
    }

    /// The tree after `k` was removed.
    pub open spec fn tree_without(&self, k: K) -> Tree<K, V> {
        trimmed(drained(self.tree(), self.height(), k, self.degree()))
    }

    /// The depth of the leaves after `k` was removed.
    pub open spec fn height_without(&self, k: K) -> nat {
        trimmed_height(drained(self.tree(), self.height(), k, self.degree()), self.height())
    }

    pub fn new(t: usize) -> (r: Self)
        requires
            lawful_key::<K>(),
            2 <= t,
            2 * t <= usize::MAX,
        ensures
            r.wf(),
            r@ == Seq::<(K, V)>::empty(),
            r.degree() == t,
            r.tree() == Tree::<K, V>::Leaf(Seq::empty()),
            r.height() == 0,
    {
        BPlusTree { t, root: Box::new(Node::Leaf(Leaf::new())), len: 0, height: Ghost(0) }
    }

    pub fn len(&self) -> (r: usize)
        requires
            self.wf(),
        ensures
            r == self@.len(),
    {
        self.len
    }

    pub fn is_empty(&self) -> (r: bool)
        requires
            self.wf(),
        ensures
            r == (self@.len() == 0),
    {
        self.len == 0
    }

    /// Puts `value` under `key`.
    pub fn insert(&mut self, key: K, value: V)
        requires
            old(self).wf(),
            old(self)@.len() < usize::MAX,
        ensures
            final(self).wf(),
            final(self)@ == put(old(self)@, key, value),
            final(self).degree() == old(self).degree(),
            final(self).tree() == inserted(
                old(self).tree(),
                old(self).height(),
                key,
                value,
                old(self).degree(),
                2 * old(self).degree() - 1,
                Seq::empty(),
            ),
            final(self).height() == inserted_height(
                old(self).tree(),
                old(self).height(),
                old(self).degree(),
            ),
    {
        proof {
            lemma_total_order::<K>();
            lemma_rank(self@, key);
        }
        let max_keys = 2 * self.t - 1;
        let ghost h0 = self.height@;
        if self.root.key_count() == max_keys {
            let mut new_root = Internal::new();
            let mut old_root = Box::new(Node::Leaf(Leaf::new()));
            std::mem::swap(&mut self.root, &mut old_root);
            let ghost m = old_root.tree();
            let ghost p = split_point(m, self.t as int);
            new_root.children.push(old_root);
            proof {
                let k0 = new_root.keys@;
                let c0 = trees(new_root.children@);
                assert(c0 =~= seq![m]);
                assert(Tree::Internal(k0, c0).wf(h0 + 1, None, None));
                lemma_flat_one(m);
                assert(sized(Tree::Internal(k0, c0), h0 + 1, self.t - 2, None));
                lemma_split(k0, c0, h0 + 1, None, None, 0, p);
            }
            new_root.split_child(0, self.t);
            proof {
                let c1 = trees(new_root.children@);
                assert(c1[0].count() >= self.t - 1);
                assert(some_wide(c1, self.t as int));
            }
            self.root = Box::new(Node::Internal(new_root));
            self.height = Ghost(h0 + 1);
        }
        let inserted = insert_non_full(
            &mut *self.root,
            key,
            value,
            self.t,
            max_keys,
            Ghost(self.height@),
            Ghost(None),
            Ghost(None),
        );
        if inserted {
            self.len += 1;
        }
    }

    /// The value under `key`.
    pub fn search(&self, key: &K) -> (r: Option<&V>)
        requires
            self.wf(),
        ensures
            match r {
                Some(v) => get(self@, *key) == Some(*v),
                None => get(self@, *key) is None,
            },
    {
        self.root.search_node(key, Ghost(self.height@), Ghost(None), Ghost(None))
    }

    /// Takes the entry under `key` out and hands its value back.
    pub fn remove(&mut self, key: &K) -> (r: Option<V>)
        requires
            old(self).wf(),
            old(self).can_remove(*key),
        ensures
            final(self).wf(),
            final(self)@ == del(old(self)@, *key),
            r == get(old(self)@, *key),
            final(self).degree() == old(self).degree(),
            final(self).tree() == old(self).tree_without(*key),
            final(self).height() == old(self).height_without(*key),
    {
        match self.checked_remove(key) {
            Ok(value) => value,
            Err(_) => None,
        }
    }

    /// Takes the entry under `key` out and hands its value back, where the key can be
    /// removed; otherwise the map keeps its entries.
    pub fn checked_remove(&mut self, key: &K) -> (r: Result<Option<V>, Stuck>)
        requires
            old(self).wf(),
        ensures
            final(self).wf(),
            final(self).degree() == old(self).degree(),
            r is Ok <==> old(self).can_remove(*key),
            match r {
                Ok(value) => {
                    &&& final(self)@ == del(old(self)@, *key)
                    &&& value == get(old(self)@, *key)
                    &&& final(self).tree() == old(self).tree_without(*key)
                    &&& final(self).height() == old(self).height_without(*key)
                },
                Err(_) => final(self)@ == old(self)@,
            },
    {
        proof {
            lemma_total_order::<K>();
            lemma_rank(self@, *key);
            if self.t >= 3 {
                if let Tree::Internal(keys, ch) = self.root.tree() {
                    let v: V = arbitrary();
                    lemma_descend(keys, ch, self.height@, None, None, *key, v);
                    lemma_top_ready(keys, ch, self.height@, self.t as int, *key);
                    lemma_settles(keys, ch, self.height@, None, None, self.t as int, -1, *key);
                }
            }
        }
        let value = match remove_from(
            &mut *self.root,
            key,
            self.t,
            Ghost(self.height@),
            Ghost(None),
            Ghost(None),
            Ghost(-1),
        ) {
            Ok(value) => value,
            Err(stuck) => {
                return Err(stuck);
            },
        };
        let shrinks = match &*self.root {
            Node::Internal(internal) => internal.keys.len() == 0,
            Node::Leaf(_) => false,
        };
        if shrinks {
            let mut old_root = Box::new(Node::Leaf(Leaf::new()));
            std::mem::swap(&mut self.root, &mut old_root);
            if let Node::Internal(internal) = *old_root {
                let mut internal = internal;
                let ghost ch = trees(internal.children@);
                self.root = internal.children.remove(0);
                proof {
                    let h = self.height@;
                    let k = internal.keys@;
                    assert(ch =~= seq![self.root.tree()]);
                    assert(ch[0].wf((h - 1) as nat, child_lo(k, 0, None), child_hi(k, 0, None)));
                    lemma_sized_child(k, ch, h, self.t - 2, None, 0);
                    lemma_flat_one(self.root.tree());
                    if self.t >= 3 && h == 2 {
                        assert(some_wide_below(ch, 1, self.t as int));
                        assert(wide_below(ch[0], 1, self.t as int));
                    }
                }
                self.height = Ghost((self.height@ - 1) as nat);
            }
        }
        if value.is_some() {
            self.len -= 1;
        }
        Ok(value)
    }

    /// A walk over all entries, in key order.
    pub fn iter(&self) -> (r: LeafIter<'_, K, V>)
        requires
            self.wf(),
        ensures
            r.wf(),
            r.remaining() == self@,
    {
        proof {
            lemma_proper(self.root.tree(), self.height@, None, None);
        }
        LeafIter::all(&*self.root)
    }

    /// A walk over the entries from `start` to `end`, in key order.
    pub fn range_from(&self, start: &K, end: Bound<K>) -> (r: LeafIter<'_, K, V>)
        requires
            self.wf(),
        ensures
            r.wf(),
            r.remaining() == range(self@, *start, end),
    {
        LeafIter::between(&*self.root, start, end, Ghost(self.height@))
    }

    /// The shape of the tree, line by line.
    pub fn print_tree(&self) -> (r: Outline<'_, K>)
        requires
            self.wf(),
        ensures
            r.t == self.degree(),
            r.len == self@.len(),
            views(r.lines@) == lines_of(self.tree(), 0),
    {
        let mut lines: Vec<Line<'_, K>> = Vec::new();
        print_node(&*self.root, 0, &mut lines);
        assert(views(lines@) =~= lines_of(self.tree(), 0));
        Outline { t: self.t, len: self.len, lines }
    }
}

proof fn lemma_top_ready<K, V>(keys: Seq<K>, ch: Seq<Tree<K, V>>, h: nat, t: int, k: K)
    where K: PartialOrd
    requires
        t >= 3,
        h >= 1,
        steady(Tree::Internal(keys, ch), h, t),
        route(keys, k) < ch.len(),
    ensures
        ready(keys, ch, h, route(keys, k) as int, t, -1),
{
}

/// A child that only grew leaves the node as wide as it was.
proof fn lemma_wide_update<K, V>(keys: Seq<K>, ch: Seq<Tree<K, V>>, ci: int, c: Tree<K, V>, t: int)
    requires
        0 <= ci < ch.len(),
        c.count() >= ch[ci].count(),
    ensures
        wide(Tree::Internal(keys, ch), t) ==> wide(Tree::Internal(keys, ch.update(ci, c)), t),
{
    if wide(Tree::Internal(keys, ch), t) {
        let i = choose|i: int| 0 <= i < ch.len() && (#[trigger] ch[i]).count() >= t - 1;
        assert(ch.update(ci, c)[i].count() >= t - 1);
        assert(some_wide(ch.update(ci, c), t));
    }
}

/// The children of an inner node.
spec fn kids<K, V>(m: Tree<K, V>) -> nat {
    match m {
        Tree::Leaf(_) => 0,
        Tree::Internal(_, ch) => ch.len(),
    }
}

/// How far the child on the way of `k` is from holding `t`.
spec fn lack_on_way<K: PartialOrd, V>(m: Tree<K, V>, k: K, t: int) -> nat {
    match m {
        Tree::Leaf(_) => 0,
        Tree::Internal(keys, ch) => lack(ch, route(keys, k) as int, t),
    }
}

/// Puts `value` under `key` in the tree below a node; says whether the key is new.
fn insert_non_full<K: Ord + Clone, V>(
    node: &mut Node<K, V>,
    key: K,
    value: V,
    t: usize,
    max_keys: usize,
    Ghost(h): Ghost<nat>,
    Ghost(lo): Ghost<Option<K>>,
    Ghost(hi): Ghost<Option<K>>,
) -> (inserted: bool)
    requires
        lawful_key::<K>(),
        2 <= t,
        max_keys == 2 * t - 1,
        old(node).tree().wf(h, lo, hi),
        lo_ok(lo, key),
        hi_ok(key, hi),
        sized(old(node).tree(), h, t - 2, None),
    ensures
        final(node).tree().wf(h, lo, hi),
        final(node).tree().contents() == put(old(node).tree().contents(), key, value),
        inserted == !present(old(node).tree().contents(), key),
        old(node).tree().count() <= final(node).tree().count(),
        sized(final(node).tree(), h, t - 2, None),
        h == 1 && wide(old(node).tree(), t as int) ==> wide(final(node).tree(), t as int),
        final(node).tree() == grown(
            old(node).tree(),
            h,
            key,
            value,
            t as int,
            max_keys as int,
            Seq::empty(),
        ),
    decreases h,
{
    proof {
        lemma_total_order::<K>();
    }
    match node {
        Node::Leaf(leaf) => {
            proof {
                lemma_leaf_change(pairs(leaf.entries@), lo, hi, key, value);
                lemma_rank(pairs(leaf.entries@), key);
            }
            leaf.put(key, value)
        },
        Node::Internal(internal) => {
            let ghost m0 = internal.tree();
            let ci = internal.child_index(&key);
            proof {
                lemma_descend(internal.keys@, trees(internal.children@), h, lo, hi, key, value);
            }
            if internal.children[ci].key_count() == max_keys {
                proof {
                    internal.lemma_uniform(h, lo, hi);
                    lemma_room(
                        internal.keys@,
                        trees(internal.children@),
                        h,
                        lo,
                        hi,
                        t as int,
                        max_keys as int,
                        true,
                        true,
                        key,
                    );
                }
                internal.make_room(ci, t, max_keys, true, true);
                proof {
                    let c2 = trees(internal.children@);
                    lemma_route(internal.keys@, key);
                    assert(c2[route(internal.keys@, key) as int].count() >= t - 1);
                    assert(some_wide(c2, t as int));
                }
            }
            let ci2 = internal.child_index(&key);
            let ghost k1 = internal.keys@;
            let ghost c1 = trees(internal.children@);
            proof {
                lemma_descend(k1, c1, h, lo, hi, key, value);
                lemma_sized_child(k1, c1, h, t - 2, None, ci2 as int);
            }
            let inserted = insert_non_full(
                &mut *internal.children[ci2],
                key,
                value,
                t,
                max_keys,
                Ghost((h - 1) as nat),
                Ghost(child_lo(k1, ci2 as int, lo)),
                Ghost(child_hi(k1, ci2 as int, hi)),
            );
            proof {
                let c = internal.children@[ci2 as int].tree();
                lemma_child_changed(k1, c1, h, lo, hi, ci2 as int, c, t - 2, None);
                assert(trees(internal.children@) =~= c1.update(ci2 as int, c));
                lemma_wide_update(k1, c1, ci2 as int, c, t as int);
            }
            inserted
        },
    }
}

/// Takes the entry under `key` out of the tree below a node, unless a node on the way has
/// to be filled up and is the only child.
fn remove_from<K: Ord + Clone, V>(
    node: &mut Node<K, V>,
    key: &K,
    t: usize,
    Ghost(h): Ghost<nat>,
    Ghost(lo): Ghost<Option<K>>,
    Ghost(hi): Ghost<Option<K>>,
    Ghost(low): Ghost<int>,
) -> (r: Result<Option<V>, Stuck>)
    requires
        lawful_key::<K>(),
        2 <= t,
        old(node).tree().wf(h, lo, hi),
        lo_ok(lo, *key),
        hi_ok(*key, hi),
        sized(old(node).tree(), h, t - 2, None),
        -1 <= low <= t - 2,
        t >= 3 ==> removable(old(node).tree(), h, *key, t as int),
        t >= 3 ==> (old(node).tree() matches Tree::Internal(keys, ch) ==> ready(
            keys,
            ch,
            h,
            route(keys, *key) as int,
            t as int,
            low,
        ) && keys.len() >= low),
    ensures
        r is Ok <==> removable(old(node).tree(), h, *key, t as int),
        final(node).tree().wf(h, lo, hi),
        sized(final(node).tree(), h, t - 2, None),
        match r {
            Ok(v) => {
                &&& v == get(old(node).tree().contents(), *key)
                &&& final(node).tree().contents() == del(old(node).tree().contents(), *key)
                &&& final(node).tree() == drained(old(node).tree(), h, *key, t as int)
            },
            Err(_) => final(node).tree().contents() == old(node).tree().contents(),
        },
        h == 0 ==> final(node).tree().count() >= old(node).tree().count() - 1,
        t >= 3 && h > 0 ==> final(node).tree().count() >= low,
        t >= 3 ==> wide_below(final(node).tree(), h, t as int),
    decreases h, kids(old(node).tree()), lack_on_way(old(node).tree(), *key, t as int),
{
    let ghost v: V = arbitrary();
    proof {
        lemma_total_order::<K>();
    }
    match node {
        Node::Leaf(leaf) => {
            proof {
                lemma_leaf_change(pairs(leaf.entries@), lo, hi, *key, v);
                lemma_rank(pairs(leaf.entries@), *key);
            }
            Ok(leaf.take(key))
        },
        Node::Internal(internal) => {
            let ci = internal.child_index(key);
            let ghost k1 = internal.keys@;
            let ghost c1 = trees(internal.children@);
            proof {
                lemma_descend(k1, c1, h, lo, hi, *key, v);
                lemma_sized_child(k1, c1, h, t - 2, None, ci as int);
                assert(removable(old(node).tree(), h, *key, t as int) == settles(
                    k1,
                    c1,
                    h,
                    ci as int,
                    *key,
                    t as int,
                ));
                assert(drained(old(node).tree(), h, *key, t as int) == drained_row(
                    k1,
                    c1,
                    h,
                    ci as int,
                    *key,
                    t as int,
                ));
            }
            if internal.children[ci].key_count() <= t - 1 {
                if internal.children.len() < 2 {
                    return Err(Stuck);
                }
                proof {
                    internal.lemma_uniform(h, lo, hi);
                    lemma_rebalanced(k1, c1, h, lo, hi, t as int, t - 1, *key);
                    if t >= 3 {
                        lemma_step(k1, c1, h, lo, hi, t as int, low, *key);
                    }
                }
                internal.rebalance(ci, t, t - 1);
                proof {
                    let k2 = internal.keys@;
                    let c2 = trees(internal.children@);
                    lemma_route(k2, *key);
                    assert(settles(k1, c1, h, ci as int, *key, t as int) == settles(
                        k2,
                        c2,
                        h,
                        route(k2, *key) as int,
                        *key,
                        t as int,
                    ));
                }
                return remove_from(node, key, t, Ghost(h), Ghost(lo), Ghost(hi), Ghost(low));
            }
            let r = remove_from(
                &mut *internal.children[ci],
                key,
                t,
                Ghost((h - 1) as nat),
                Ghost(child_lo(k1, ci as int, lo)),
                Ghost(child_hi(k1, ci as int, hi)),
                Ghost(t - 2),
            );
            proof {
                let c = internal.children@[ci as int].tree();
                lemma_child_changed(k1, c1, h, lo, hi, ci as int, c, t - 2, None);
                let c2 = trees(internal.children@);
                assert(c2 =~= c1.update(ci as int, c));
                assert(c2[ci as int] == c);
                if t >= 3 {
                    if h == 1 {
                        assert(c2[ci as int].count() >= t - 1);
                        assert(some_wide(c2, t as int));
                    } else {
                        assert(wide_below(c2[ci as int], (h - 1) as nat, t as int));
                        assert(some_wide_below(c2, (h - 1) as nat, t as int));
                    }
                    assert(wide_below(internal.tree(), h, t as int));
                }
                if r is Err {
                    lemma_flat_at(c1, ci as int);
                    lemma_flat_at(c2, ci as int);
                    assert(c2.take(ci as int) =~= c1.take(ci as int));
                    assert(c2.skip(ci + 1) =~= c1.skip(ci + 1));
                }
            }
            r
        },
    }
}

} // verus!
