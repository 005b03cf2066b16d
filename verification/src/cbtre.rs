//! A B+ tree with the textbook balance: every node but the root is between half full and
//! full.
use crate::balance::{
    lemma_child_changed, lemma_rebalanced, lemma_room, lemma_sized_child, lemma_split, sized,
};
use crate::cursor;
pub use crate::cursor::Bound;
use crate::cursor::{lemma_proper, range};
use crate::entries::{del, get, lemma_rank, present, put, sorted};
use crate::node::{pairs, split_point, trees, Internal, Leaf, Node};
use crate::order::{clone_key, lawful_key, lemma_total_order, total_order};
use crate::outline::{lines_of, print_node, views, Line, Outline};
use crate::shape::{
    chance, eased, further, grown, inserted, inserted_height, thinned, trimmed, trimmed_height, way,
};
use crate::tree::{
    child_hi, child_lo, hi_ok, lemma_contents, lemma_descend, lemma_flat_one, lemma_leaf_change,
    lo_ok, route, Tree,
};
use vstd::prelude::*;

verus! {

/// A map from keys to values, held in order.
pub struct BPlusTree<K: Ord + Clone, V: Clone> {
    t: usize,
    root: Box<Node<K, V>>,
    len: usize,
    height: Ghost<nat>,
}

/// The least count of a root: an inner root has at least two children.
pub open spec fn root_min<K, V>(m: Tree<K, V>) -> nat {
    if m is Leaf {
        0
    } else {
        1
    }
}

/// A balanced search tree of minimum degree `t`: all leaves are at depth `h`; the root
/// holds at most `2 * t - 1` entries or separators, every other node between `t - 1` and
/// `2 * t - 1`.
pub open spec fn balanced<K: PartialOrd, V>(m: Tree<K, V>, h: nat, t: int) -> bool {
    &&& m.wf(h, None, None)
    &&& root_min(m) <= m.count() <= 2 * t - 1
    &&& sized(m, h, t - 1, Some(2 * t - 1))
}

impl<K: Ord + Clone, V: Clone> BPlusTree<K, V> {
    /// The entries of the map, in key order.
    pub closed spec fn view(&self) -> Seq<(K, V)> {
        self.root.tree().contents()
    }

    /// The tree that holds the map.
    pub closed spec fn tree(&self) -> Tree<K, V> {
        self.root.tree()
    }

    /// The depth of the leaves.
    pub closed spec fn height(&self) -> nat {
        self.height@
    }

    /// The minimum degree.
    pub closed spec fn degree(&self) -> int {
        self.t as int
    }

    /// What every operation keeps.
    pub closed spec fn wf(&self) -> bool {
        &&& lawful_key::<K>()
        &&& 2 <= self.t
        &&& 2 * self.t <= usize::MAX
        &&& self.len == self@.len()
        &&& balanced(self.root.tree(), self.height@, self.t as int)
    }

    /// The map is its tree's entries, in order and without a key twice, and the tree is balanced.
    pub proof fn lemma_wf(&self)
        requires
            self.wf(),
        ensures
            total_order::<K>(),
            self.degree() >= 2,
            self@ == self.tree().contents(),
            sorted(self@),
            balanced(self.tree(), self.height(), self.degree()),
    {
        lemma_total_order::<K>();
        lemma_contents(self.tree(), self.height(), None, None);
    }

    pub fn new(t: usize) -> (r: Self)
        requires
            lawful_key::<K>(),
            2 <= t,
            2 * t <= usize::MAX,
        ensures
            r.wf(),
            r@ == Seq::<(K, V)>::empty(),
            r.degree() == t,
            r.tree() == Tree::<K, V>::Leaf(Seq::empty()),
            r.height() == 0,
    {
        BPlusTree { t, root: Box::new(Node::Leaf(Leaf::new())), len: 0, height: Ghost(0) }
    }

    pub fn len(&self) -> (r: usize)
        requires
            self.wf(),
        ensures
            r == self@.len(),
    {
        self.len
    }

    pub fn is_empty(&self) -> (r: bool)
        requires
            self.wf(),
        ensures
            r == (self@.len() == 0),
    {
        self.len() == 0
    }

    /// Puts `value` under `key`.
    pub fn insert(&mut self, key: K, value: V)
        requires
            old(self).wf(),
            old(self)@.len() < usize::MAX,
        ensures
            final(self).wf(),
            final(self)@ == put(old(self)@, key, value),
            final(self).degree() == old(self).degree(),
            final(self).tree() == inserted(
                old(self).tree(),
                old(self).height(),
                key,
                value,
                old(self).degree(),
                2 * old(self).degree() - 2,
                Seq::empty(),
            ),
            final(self).height() == inserted_height(
                old(self).tree(),
                old(self).height(),
                old(self).degree(),
            ),
    {
        let free: Vec<(bool, bool)> = Vec::new();
        assert(free@ =~= Seq::empty());
        self.insert_among(key, value, &free);
    }

    /// Puts `value` under `key`, where not every neighbour of a full node can be had: `free` says
    /// for each node on the way down whether the right and the left one can. Which tree holds the
    /// map depends on it, the map does not.
    pub fn insert_among(&mut self, key: K, value: V, free: &Vec<(bool, bool)>)
        requires
            old(self).wf(),
            old(self)@.len() < usize::MAX,
        ensures
            final(self).wf(),
            final(self)@ == put(old(self)@, key, value),
            final(self).degree() == old(self).degree(),
            final(self).tree() == inserted(
                old(self).tree(),
                old(self).height(),
                key,
                value,
                old(self).degree(),
                2 * old(self).degree() - 2,
                free@,
            ),
            final(self).height() == inserted_height(
                old(self).tree(),
                old(self).height(),
                old(self).degree(),
            ),
    {
        proof {
            lemma_total_order::<K>();
            lemma_rank(self@, key);
        }
        let max_keys = 2 * self.t - 1;
        let ghost h0 = self.height@;
        if self.root.key_count() == max_keys {
            let mut new_root = Internal::new();
            let mut new_box = Box::new(Node::Leaf(Leaf::new()));
            std::mem::swap(&mut self.root, &mut new_box);
            let ghost m = new_box.tree();
            new_root.children.push(new_box);
            proof {
                let k0 = new_root.keys@;
                let c0 = trees(new_root.children@);
                assert(c0 =~= seq![m]);
                assert(Tree::Internal(k0, c0).wf(h0 + 1, None, None));
                lemma_flat_one(m);
                assert(sized(Tree::Internal(k0, c0), h0 + 1, self.t - 1, Some(2 * self.t - 1)));
                lemma_split(
                    k0,
                    c0,
                    h0 + 1,
                    None,
                    None,
                    0,
                    split_point(m, self.t as int),
                );
            }
            new_root.split_child(0, self.t);
            self.root = Box::new(Node::Internal(new_root));
            self.height = Ghost(h0 + 1);
        }
        assert(free@.skip(0) =~= free@);
        let inserted = insert_below(
            &mut *self.root,
            key,
            value,
            self.t,
            free,
            0,
            Ghost(self.height@),
            Ghost(None),
            Ghost(None),
        );
        if inserted {
            self.len += 1;
        }
    }

    /// The value under `key`.
    pub fn search(&self, key: &K) -> (r: Option<V>)
        requires
            self.wf(),
        ensures
            match get(self@, *key) {
                Some(v) => r matches Some(c) && cloned::<V>(v, c),
                None => r is None,
            },
    {
        match self.root.search_node(key, Ghost(self.height@), Ghost(None), Ghost(None)) {
            Some(v) => Some(v.clone()),
            None => None,
        }
    }

    /// Takes the entry under `key` out and hands its value back.
    pub fn remove(&mut self, key: &K) -> (r: Option<V>)
        requires
            old(self).wf(),
        ensures
            final(self).wf(),
            final(self)@ == del(old(self)@, *key),
            r == get(old(self)@, *key),
            final(self).degree() == old(self).degree(),
            ({
                let m = thinned(old(self).tree(), old(self).height(), *key, old(self).degree());
                &&& final(self).tree() == trimmed(m)
                &&& final(self).height() == trimmed_height(m, old(self).height())
            }),
    {
        proof {
            lemma_total_order::<K>();
            lemma_rank(self@, *key);
        }
        let deleted_value = remove_below(
            &mut *self.root,
            key,
            self.t,
            Ghost(self.height@),
            Ghost(None),
            Ghost(None),
        );
        let needs_shrink = match &*self.root {
            Node::Internal(internal) => internal.keys.len() == 0 && internal.children.len() > 0,
            Node::Leaf(_) => false,
        };
        if needs_shrink {
            let mut old_root = Box::new(Node::Leaf(Leaf::new()));
            std::mem::swap(&mut self.root, &mut old_root);
            if let Node::Internal(internal) = *old_root {
                let mut internal = internal;
                let ghost ch = trees(internal.children@);
                self.root = internal.children.remove(0);
                proof {
                    let h = self.height@;
                    let k = internal.keys@;
                    assert(ch =~= seq![self.root.tree()]);
                    assert(ch[0].wf((h - 1) as nat, child_lo(k, 0, None), child_hi(k, 0, None)));
                    lemma_sized_child(k, ch, h, self.t - 1, Some(2 * self.t - 1), 0);
                    lemma_flat_one(self.root.tree());
                }
                self.height = Ghost((self.height@ - 1) as nat);
            }
        }
        if deleted_value.is_some() {
            self.len -= 1;
        }
        deleted_value
    }

    /// A walk over all entries, in key order.
    pub fn iter(&self) -> (r: LeafIter<'_, K, V>)
        requires
            self.wf(),
        ensures
            r.wf(),
            r.remaining() == self@,
    {
        proof {
            lemma_proper(self.root.tree(), self.height@, None, None);
        }
        LeafIter { inner: cursor::LeafIter::all(&*self.root) }
    }

    /// A walk over the entries from `start` to `end`, in key order.
    pub fn range_from(&self, start: &K, end: Bound<K>) -> (r: LeafIter<'_, K, V>)
        requires
            self.wf(),
        ensures
            r.wf(),
            r.remaining() == range(self@, *start, end),
    {
        LeafIter {
            inner: cursor::LeafIter::between(&*self.root, start, end, Ghost(self.height@)),
        }
    }

    /// The shape of the tree, line by line.
    pub fn print_tree(&self) -> (r: Outline<'_, K>)
        requires
            self.wf(),
        ensures
            r.t == self.degree(),
            r.len == self@.len(),
            views(r.lines@) == lines_of(self.tree(), 0),
    {
        let mut lines: Vec<Line<'_, K>> = Vec::new();
        print_node(&*self.root, 0, &mut lines);
        assert(views(lines@) =~= lines_of(self.tree(), 0));
        Outline { t: self.t, len: self.len, lines }
    }
}

/// A walk that hands out clones of the entries.
pub struct LeafIter<'a, K: Ord + Clone, V: Clone> {
    inner: cursor::LeafIter<'a, K, V>,
}

impl<'a, K: Ord + Clone, V: Clone> LeafIter<'a, K, V> {
    pub closed spec fn wf(&self) -> bool {
        self.inner.wf()
    }

    /// The entries that the walk has yet to give, in order.
    pub closed spec fn remaining(&self) -> Seq<(K, V)> {
        self.inner.remaining()
    }

    /// The next entry of the walk.
    pub fn next(&mut self) -> (r: Option<(K, V)>)
        requires
            lawful_key::<K>(),
            old(self).wf(),
        ensures
            final(self).wf(),
            match r {
                Some((k, v)) => {
                    &&& old(self).remaining().len() > 0
                    &&& old(self).remaining()[0].0 == k
                    &&& cloned::<V>(old(self).remaining()[0].1, v)
                    &&& final(self).remaining() == old(self).remaining().skip(1)
                },
                None => old(self).remaining().len() == 0 && final(self).remaining()
                    == old(self).remaining(),
            },
    {
        match self.inner.next() {
            Some((k, v)) => Some((clone_key(k), v.clone())),
            None => None,
        }
    }
}

/// Makes room in the child on the way to `key`, if it is full.
fn ease<K: Ord + Clone, V: Clone>(
    internal: &mut Internal<K, V>,
    key: &K,
    t: usize,
    right_free: bool,
    left_free: bool,
    Ghost(h): Ghost<nat>,
    Ghost(lo): Ghost<Option<K>>,
    Ghost(hi): Ghost<Option<K>>,
)
    requires
        lawful_key::<K>(),
        2 <= t,
        2 * t <= usize::MAX,
        old(internal).tree().wf(h, lo, hi),
        lo_ok(lo, *key),
        hi_ok(*key, hi),
        old(internal).tree().count() < 2 * t - 1,
        sized(old(internal).tree(), h, t - 1, Some(2 * t - 1)),
    ensures
        final(internal).tree().wf(h, lo, hi),
        final(internal).tree().contents() == old(internal).tree().contents(),
        old(internal).tree().count() <= final(internal).tree().count() <= 2 * t - 1,
        sized(final(internal).tree(), h, t - 1, Some(2 * t - 1)),
        final(internal).tree() == eased(
            old(internal).tree(),
            way(old(internal).tree(), *key),
            t as int,
            2 * t - 2,
            (right_free, left_free),
        ),
        route(final(internal).keys@, *key) < final(internal).children@.len(),
        trees(final(internal).children@)[route(final(internal).keys@, *key) as int].count() < 2 * t - 1,
{
    let ghost v: V = arbitrary();
    let ci = internal.child_index(key);
    let max_keys = 2 * t - 1;
    proof {
        lemma_total_order::<K>();
        lemma_descend(internal.keys@, trees(internal.children@), h, lo, hi, *key, v);
        lemma_sized_child(
            internal.keys@,
            trees(internal.children@),
            h,
            t - 1,
            Some(2 * t - 1),
            ci as int,
        );
    }
    if internal.children[ci].key_count() == max_keys {
        proof {
            internal.lemma_uniform(h, lo, hi);
            lemma_room(
                internal.keys@,
                trees(internal.children@),
                h,
                lo,
                hi,
                t as int,
                max_keys - 1,
                right_free,
                left_free,
                *key,
            );
        }
        internal.make_room(ci, t, max_keys - 1, right_free, left_free);
        proof {
            lemma_descend(internal.keys@, trees(internal.children@), h, lo, hi, *key, v);
        }
    }
}

/// Puts `value` under `key` in the tree below a node that is not full; says whether the
/// key is new.
fn insert_below<K: Ord + Clone, V: Clone>(
    node: &mut Node<K, V>,
    key: K,
    value: V,
    t: usize,
    free: &Vec<(bool, bool)>,
    depth: usize,
    Ghost(h): Ghost<nat>,
    Ghost(lo): Ghost<Option<K>>,
    Ghost(hi): Ghost<Option<K>>,
) -> (inserted: bool)
    requires
        depth <= free.len(),
        lawful_key::<K>(),
        2 <= t,
        2 * t <= usize::MAX,
        old(node).tree().wf(h, lo, hi),
        lo_ok(lo, key),
        hi_ok(key, hi),
        old(node).tree().count() < 2 * t - 1,
        sized(old(node).tree(), h, t - 1, Some(2 * t - 1)),
    ensures
        final(node).tree().wf(h, lo, hi),
        final(node).tree().contents() == put(old(node).tree().contents(), key, value),
        inserted == !present(old(node).tree().contents(), key),
        old(node).tree().count() <= final(node).tree().count() <= 2 * t - 1,
        sized(final(node).tree(), h, t - 1, Some(2 * t - 1)),
        final(node).tree() == grown(
            old(node).tree(),
            h,
            key,
            value,
            t as int,
            2 * t - 2,
            free@.skip(depth as int),
        ),
    decreases h,
{
    proof {
        lemma_total_order::<K>();
    }
    match node {
        Node::Leaf(leaf) => {
            proof {
                lemma_leaf_change(pairs(leaf.entries@), lo, hi, key, value);
                lemma_rank(pairs(leaf.entries@), key);
            }
            leaf.put(key, value)
        },
        Node::Internal(internal) => {
            let (right_free, left_free) = if depth < free.len() {
                free[depth]
            } else {
                (true, true)
            };
            let below = if depth < free.len() {
                depth + 1
            } else {
                depth
            };
            proof {
                let f = free@.skip(depth as int);
                assert(chance(f) == (right_free, left_free));
                assert(further(f) =~= free@.skip(below as int));
            }
            ease(internal, &key, t, right_free, left_free, Ghost(h), Ghost(lo), Ghost(hi));
            let ci = internal.child_index(&key);
            let ghost k1 = internal.keys@;
            let ghost c1 = trees(internal.children@);
            proof {
                lemma_descend(k1, c1, h, lo, hi, key, value);
                lemma_sized_child(k1, c1, h, t - 1, Some(2 * t - 1), ci as int);
            }
            let inserted = insert_below(
                &mut *internal.children[ci],
                key,
                value,
                t,
                free,
                below,
                Ghost((h - 1) as nat),
                Ghost(child_lo(k1, ci as int, lo)),
                Ghost(child_hi(k1, ci as int, hi)),
            );
            proof {
                let c = internal.children@[ci as int].tree();
                lemma_child_changed(k1, c1, h, lo, hi, ci as int, c, t - 1, Some(2 * t - 1));
                assert(trees(internal.children@) =~= c1.update(ci as int, c));
            }
            inserted
        },
    }
}

/// Takes the entry under `key` out of the tree below a node that can spare a child.
fn remove_below<K: Ord + Clone, V: Clone>(
    node: &mut Node<K, V>,
    key: &K,
    t: usize,
    Ghost(h): Ghost<nat>,
    Ghost(lo): Ghost<Option<K>>,
    Ghost(hi): Ghost<Option<K>>,
) -> (r: Option<V>)
    requires
        lawful_key::<K>(),
        2 <= t,
        2 * t <= usize::MAX,
        old(node).tree().wf(h, lo, hi),
        lo_ok(lo, *key),
        hi_ok(*key, hi),
        root_min(old(node).tree()) <= old(node).tree().count() <= 2 * t - 1,
        sized(old(node).tree(), h, t - 1, Some(2 * t - 1)),
    ensures
        final(node).tree().wf(h, lo, hi),
        final(node).tree().contents() == del(old(node).tree().contents(), *key),
        r == get(old(node).tree().contents(), *key),
        old(node).tree().count() - 1 <= final(node).tree().count() <= old(node).tree().count(),
        sized(final(node).tree(), h, t - 1, Some(2 * t - 1)),
        final(node).tree() == thinned(old(node).tree(), h, *key, t as int),
    decreases h,
{
    let ghost v: V = arbitrary();
    proof {
        lemma_total_order::<K>();
    }
    match node {
        Node::Leaf(leaf) => {
            proof {
                lemma_leaf_change(pairs(leaf.entries@), lo, hi, *key, v);
                lemma_rank(pairs(leaf.entries@), *key);
            }
            leaf.take(key)
        },
        Node::Internal(internal) => {
            let ci = internal.child_index(key);
            proof {
                lemma_descend(internal.keys@, trees(internal.children@), h, lo, hi, *key, v);
                lemma_sized_child(
                    internal.keys@,
                    trees(internal.children@),
                    h,
                    t - 1,
                    Some(2 * t - 1),
                    ci as int,
                );
            }
            if internal.children[ci].key_count() <= t - 1 {
                proof {
                    let k0 = internal.keys@;
                    let c0 = trees(internal.children@);
                    internal.lemma_uniform(h, lo, hi);
                    lemma_rebalanced(k0, c0, h, lo, hi, t as int, t as int, *key);
                    let j = if ci + 1 < c0.len() {
                        ci + 1
                    } else {
                        ci - 1
                    };
                    lemma_sized_child(k0, c0, h, t - 1, Some(2 * t - 1), j);
                }
                internal.rebalance(ci, t, t);
            }
            let ci = internal.child_index(key);
            let ghost k1 = internal.keys@;
            let ghost c1 = trees(internal.children@);
            proof {
                lemma_descend(k1, c1, h, lo, hi, *key, v);
                lemma_sized_child(k1, c1, h, t - 1, Some(2 * t - 1), ci as int);
            }
            let r = remove_below(
                &mut *internal.children[ci],
                key,
                t,
                Ghost((h - 1) as nat),
                Ghost(child_lo(k1, ci as int, lo)),
                Ghost(child_hi(k1, ci as int, hi)),
            );
            proof {
                let c = internal.children@[ci as int].tree();
                lemma_child_changed(k1, c1, h, lo, hi, ci as int, c, t - 1, Some(2 * t - 1));
                assert(trees(internal.children@) =~= c1.update(ci as int, c));
            }
            r
        },
    }
}

} // verus!
