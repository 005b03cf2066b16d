//! Nodes of the in-memory trees.
use crate::balance::{rebalanced, room_made};
use crate::entries::{del, get, lemma_rank, lemma_rank_is, present, put, rank, sorted};
use crate::order::{clone_key, lawful_key, le, lemma_total_order, lt, precedes, total_order};
use crate::tree::{
    child_hi, child_lo, cut, hi_ok, join, lemma_descend, lemma_route_is, lo_ok, route, with_one,
    with_pair, with_two, Tree,
};
use vstd::prelude::*;

verus! {

pub struct LeafEntry<K: Ord + Clone, V> {
    pub key: K,
    pub value: V,
}

pub struct Leaf<K: Ord + Clone, V> {
    pub entries: Vec<LeafEntry<K, V>>,
}

pub struct Internal<K: Ord + Clone, V> {
    pub keys: Vec<K>,
    pub children: Vec<Box<Node<K, V>>>,
}

pub enum Node<K: Ord + Clone, V> {
    Leaf(Leaf<K, V>),
    Internal(Internal<K, V>),
}

/// The pairs that a vector of entries holds.
pub open spec fn pairs<K: Ord + Clone, V>(s: Seq<LeafEntry<K, V>>) -> Seq<(K, V)> {
    s.map_values(|e: LeafEntry<K, V>| (e.key, e.value))
}

/// The trees that a row of children stands for.
pub open spec fn trees<K: Ord + Clone, V>(s: Seq<Box<Node<K, V>>>) -> Seq<Tree<K, V>>
    decreases s,
{
    Seq::new(
        s.len(),
        |i: int|
            if 0 <= i < s.len() {
                s[i].tree()
            } else {
                arbitrary()
            },
    )
}

impl<K: Ord + Clone, V> Leaf<K, V> {
    pub open spec fn tree(self) -> Tree<K, V> {
        Tree::Leaf(pairs(self.entries@))
    }
}

impl<K: Ord + Clone, V> Internal<K, V> {
    pub open spec fn tree(self) -> Tree<K, V>
        decreases self,
    {
        Tree::Internal(self.keys@, trees(self.children@))
    }
}

impl<K: Ord + Clone, V> Node<K, V> {
    /// The tree that hangs from this node.
    pub open spec fn tree(self) -> Tree<K, V>
        decreases self,
    {
        match self {
            Node::Leaf(l) => Tree::Leaf(pairs(l.entries@)),
            Node::Internal(n) => Tree::Internal(n.keys@, trees(n.children@)),
        }
    }
}


/// An inner node has one child more than it has separators.
pub open spec fn shaped<K, V>(t: Tree<K, V>) -> bool {
    t matches Tree::Internal(keys, ch) ==> ch.len() == keys.len() + 1
}

/// Two nodes of one kind, which can stand side by side.
pub open spec fn siblings<K, V>(l: Tree<K, V>, r: Tree<K, V>) -> bool {
    &&& l is Leaf <==> r is Leaf
    &&& shaped(l)
    &&& shaped(r)
}

/// Where a full node is split: a leaf keeps `t` entries, an inner node `t - 1` separators.
pub open spec fn split_point<K, V>(m: Tree<K, V>, t: int) -> int {
    if m is Leaf {
        t
    } else {
        t - 1
    }
}

impl<K: Ord + Clone, V> Leaf<K, V> {
    pub fn new() -> (r: Self)
        ensures
            r.tree() == Tree::<K, V>::Leaf(Seq::empty()),
    {
        let r = Leaf { entries: Vec::new() };
        assert(pairs(r.entries@) =~= Seq::empty());
        r
    }

    /// The position of `key`, or the position at which it would go in.
    pub fn find_pos(&self, key: &K) -> (r: Result<usize, usize>)
        requires
            lawful_key::<K>(),
            sorted(pairs(self.entries@)),
        ensures
            match r {
                Ok(i) => present(pairs(self.entries@), *key) && i == rank(pairs(self.entries@), *key),
                Err(i) => !present(pairs(self.entries@), *key) && i == rank(pairs(self.entries@), *key),
            },
    {
        proof {
            lemma_total_order::<K>();
        }
        let ghost s = pairs(self.entries@);
        let mut lo: usize = 0;
        let mut hi: usize = self.entries.len();
        while lo < hi
            invariant
                0 <= lo <= hi <= self.entries.len(),
                s == pairs(self.entries@),
                sorted(s),
                lawful_key::<K>(),
                total_order::<K>(),
                forall|i: int| 0 <= i < lo ==> lt((#[trigger] s[i]).0, *key),
                forall|i: int| hi <= i < s.len() ==> !lt((#[trigger] s[i]).0, *key),
            decreases hi - lo,
        {
            let mid = lo + (hi - lo) / 2;
            assert(s[mid as int].0 == self.entries[mid as int].key);
            if precedes(&self.entries[mid].key, key) {
                lo = mid + 1;
            } else {
                hi = mid;
            }
        }
        proof {
            lemma_rank_is(s, *key, lo as int);
        }
        if lo < self.entries.len() && !precedes(key, &self.entries[lo].key) {
            Ok(lo)
        } else {
            Err(lo)
        }
    }
}

impl<K: Ord + Clone, V> Internal<K, V> {
    pub fn new() -> (r: Self)
        ensures
            r.keys@ == Seq::<K>::empty(),
            r.children@ == Seq::<Box<Node<K, V>>>::empty(),
    {
        Internal { keys: Vec::new(), children: Vec::new() }
    }

    /// The child that `key` belongs to: a key equal to a separator goes to its right.
    pub fn child_index(&self, key: &K) -> (r: usize)
        requires
            lawful_key::<K>(),
            forall|i: int, j: int|
                #![trigger self.keys@[i], self.keys@[j]]
                0 <= i < j < self.keys@.len() ==> le(self.keys@[i], self.keys@[j]),
        ensures
            r == route(self.keys@, *key),
            r <= self.keys@.len(),
    {
        proof {
            lemma_total_order::<K>();
        }
        let mut lo: usize = 0;
        let mut hi: usize = self.keys.len();
        while lo < hi
            invariant
                0 <= lo <= hi <= self.keys.len(),
                lawful_key::<K>(),
                total_order::<K>(),
                forall|i: int, j: int|
                    #![trigger self.keys@[i], self.keys@[j]]
                    0 <= i < j < self.keys@.len() ==> le(self.keys@[i], self.keys@[j]),
                forall|i: int| 0 <= i < lo ==> le(#[trigger] self.keys@[i], *key),
                forall|i: int| hi <= i < self.keys@.len() ==> lt(*key, #[trigger] self.keys@[i]),
            decreases hi - lo,
        {
            let mid = lo + (hi - lo) / 2;
            if precedes(key, &self.keys[mid]) {
                hi = mid;
            } else {
                lo = mid + 1;
            }
        }
        proof {
            lemma_route_is(self.keys@, *key, lo as int);
        }
        lo
    }
}

impl<K: Ord + Clone, V> Node<K, V> {
    pub fn first_key(&self) -> (r: Option<&K>)
        ensures
            match self {
                Node::Leaf(l) => if l.entries@.len() == 0 {
                    r is None
                } else {
                    r == Some(&l.entries@[0].key)
                },
                Node::Internal(n) => if n.keys@.len() == 0 {
                    r is None
                } else {
                    r == Some(&n.keys@[0])
                },
            },
    {
        match self {
            Node::Leaf(l) => if l.entries.len() == 0 {
                None
            } else {
                Some(&l.entries[0].key)
            },
            Node::Internal(n) => if n.keys.len() == 0 {
                None
            } else {
                Some(&n.keys[0])
            },
        }
    }

    pub fn key_count(&self) -> (r: usize)
        ensures
            r == self.tree().count(),
    {
        match self {
            Node::Leaf(l) => l.entries.len(),
            Node::Internal(n) => n.keys.len(),
        }
    }

    pub fn is_leaf(&self) -> (r: bool)
        ensures
            r == self.tree() is Leaf,
    {
        matches!(self, Node::Leaf(_))
    }

    pub fn is_internal(&self) -> (r: bool)
        ensures
            r == self.tree() is Internal,
    {
        matches!(self, Node::Internal(_))
    }

    /// Splits a node: the right part comes back with the key that separates it from
    /// the left part, which stays here.
    pub(crate) fn split(&mut self, t: usize) -> (r: SplitResult<K, V>)
        requires
            lawful_key::<K>(),
            1 <= t,
            old(self).tree().count() > split_point(old(self).tree(), t as int),
            shaped(old(self).tree()),
        ensures
            (final(self).tree(), r.promoted_key, r.right_child.tree()) == cut(
                old(self).tree(),
                split_point(old(self).tree(), t as int),
            ),
    {
        let ghost m = self.tree();
        match self {
            Node::Leaf(left) => {
                let ghost e = pairs(left.entries@);
                let right_entries = left.entries.split_off(t);
                let promoted_key = clone_key(&right_entries[0].key);
                assert(promoted_key == e[t as int].0);
                assert(pairs(left.entries@) =~= e.take(t as int));
                assert(pairs(right_entries@) =~= e.skip(t as int));
                SplitResult {
                    promoted_key,
                    right_child: Box::new(Node::Leaf(Leaf { entries: right_entries })),
                }
            },
            Node::Internal(left) => {
                let ghost k = left.keys@;
                let ghost c = trees(left.children@);
                let mid = t - 1;
                let promoted_key = clone_key(&left.keys[mid]);
                let mut right_keys = left.keys.split_off(mid);
                right_keys.remove(0);
                let right_children = left.children.split_off(mid + 1);
                assert(promoted_key == k[mid as int]);
                assert(left.keys@ =~= k.take(mid as int));
                assert(right_keys@ =~= k.skip(mid + 1));
                assert(trees(left.children@) =~= c.take(mid + 1));
                assert(trees(right_children@) =~= c.skip(mid + 1));
                SplitResult {
                    promoted_key,
                    right_child: Box::new(
                        Node::Internal(Internal { keys: right_keys, children: right_children }),
                    ),
                }
            },
        }
    }
}

pub struct SplitResult<K: Ord + Clone, V> {
    pub promoted_key: K,
    pub right_child: Box<Node<K, V>>,
}

impl<K: Ord + Clone, V> Internal<K, V> {
    /// Splits child `ci`.
    pub(crate) fn split_child(&mut self, ci: usize, t: usize)
        requires
            lawful_key::<K>(),
            1 <= t,
            old(self).children@.len() == old(self).keys@.len() + 1,
            ci < old(self).children.len(),
            old(self).children@[ci as int].tree().count() > split_point(
                old(self).children@[ci as int].tree(),
                t as int,
            ),
            shaped(old(self).children@[ci as int].tree()),
        ensures
            ({
                let m = old(self).children@[ci as int].tree();
                final(self).tree() == with_two(
                    old(self).keys@,
                    trees(old(self).children@),
                    ci as int,
                    cut(m, split_point(m, t as int)),
                )
            }),
    {
        let ghost ch = trees(self.children@);
        let ghost k = self.keys@;
        let split = self.children[ci].split(t);
        let ghost x = (self.children@[ci as int].tree(), split.promoted_key, split.right_child.tree());
        self.keys.insert(ci, split.promoted_key);
        self.children.insert(ci + 1, split.right_child);
        proof {
            assert(trees(self.children@) =~= ch.update(ci as int, x.0).insert(ci + 1, x.2));
        }
    }
}

/// How many entries or separators the left of two neighbours keeps when the right one
/// takes its half.
pub open spec fn even_right<K, V>(l: Tree<K, V>, r: Tree<K, V>) -> int {
    ((l.count() + r.count()) / 2) as int
}

/// How many entries or separators the left of two neighbours keeps when it takes its half.
pub open spec fn even_left<K, V>(l: Tree<K, V>, r: Tree<K, V>) -> int {
    l.count() + r.count() - even_right(l, r)
}

/// Moves `n` separators and children from the end of `left` to the front of `right`,
/// turning the separator between the two.
fn rotate_right<K: Ord + Clone, V>(
    sep: &mut K,
    left: &mut Internal<K, V>,
    right: &mut Internal<K, V>,
    n: usize,
)
    requires
        lawful_key::<K>(),
        n <= old(left).keys.len(),
        shaped(old(left).tree()),
        shaped(old(right).tree()),
    ensures
        (final(left).tree(), *final(sep), final(right).tree()) == cut(
            join(old(left).tree(), *old(sep), old(right).tree()),
            old(left).keys@.len() - n,
        ),
{
    let ghost mk = left.keys@.push(*sep) + right.keys@;
    let ghost mc = trees(left.children@) + trees(right.children@);
    let ghost l = left.keys@.len() as int;
    let mut i: usize = 0;
    proof {
        assert(left.keys@ =~= mk.take(l));
        assert(right.keys@ =~= mk.skip(l + 1));
        assert(trees(left.children@) =~= mc.take(l + 1));
        assert(trees(right.children@) =~= mc.skip(l + 1));
    }
    while i < n
        invariant
            lawful_key::<K>(),
            i <= n <= l < mk.len(),
            mc.len() == mk.len() + 1,
            left.keys@ == mk.take(l - i),
            *sep == mk[l - i],
            right.keys@ == mk.skip(l - i + 1),
            left.children@.len() == l - i + 1,
            trees(left.children@) == mc.take(l - i + 1),
            trees(right.children@) == mc.skip(l - i + 1),
        decreases n - i,
    {
        let ghost c0 = left.children@;
        let ghost c1 = right.children@;
        right.keys.insert(0, clone_key(sep));
        *sep = left.keys.pop().unwrap();
        let child = left.children.pop().unwrap();
        right.children.insert(0, child);
        i += 1;
        proof {
            assert(left.keys@ =~= mk.take(l - i));
            assert(right.keys@ =~= mk.skip(l - i + 1));
            assert(trees(c0)[l - i + 1] == mc[l - i + 1]);
            assert forall|j: int| 0 <= j < l - i + 1 implies trees(left.children@)[j] == mc.take(l - i + 1)[j] by {
                assert(trees(c0)[j] == mc.take(l - i + 2)[j]);
            }
            assert(trees(left.children@) =~= mc.take(l - i + 1));
            assert(trees(c1).len() == mc.skip(l - i + 2).len());
            assert forall|j: int| 0 < j < trees(right.children@).len() implies trees(right.children@)[j] == mc.skip(l - i + 1)[j] by {
                assert(trees(c1)[j - 1] == mc.skip(l - i + 2)[j - 1]);
            }
            assert(trees(right.children@) =~= mc.skip(l - i + 1));
        }
    }
}

/// Moves `n` separators and children from the front of `right` to the end of `left`,
/// turning the separator between the two.
fn rotate_left<K: Ord + Clone, V>(
    sep: &mut K,
    left: &mut Internal<K, V>,
    right: &mut Internal<K, V>,
    n: usize,
)
    requires
        lawful_key::<K>(),
        n <= old(right).keys.len(),
        shaped(old(left).tree()),
        shaped(old(right).tree()),
    ensures
        (final(left).tree(), *final(sep), final(right).tree()) == cut(
            join(old(left).tree(), *old(sep), old(right).tree()),
            old(left).keys@.len() + n,
        ),
{
    let ghost mk = left.keys@.push(*sep) + right.keys@;
    let ghost mc = trees(left.children@) + trees(right.children@);
    let ghost l = left.keys@.len() as int;
    let mut i: usize = 0;
    proof {
        assert(left.keys@ =~= mk.take(l));
        assert(right.keys@ =~= mk.skip(l + 1));
        assert(trees(left.children@) =~= mc.take(l + 1));
        assert(trees(right.children@) =~= mc.skip(l + 1));
    }
    while i < n
        invariant
            lawful_key::<K>(),
            0 <= l,
            i <= n,
            l + n < mk.len(),
            mc.len() == mk.len() + 1,
            left.keys@ == mk.take(l + i),
            *sep == mk[l + i],
            right.keys@ == mk.skip(l + i + 1),
            right.children@.len() == mk.len() - l - i,
            trees(left.children@) == mc.take(l + i + 1),
            trees(right.children@) == mc.skip(l + i + 1),
        decreases n - i,
    {
        let ghost c0 = left.children@;
        let ghost c1 = right.children@;
        left.keys.push(clone_key(sep));
        *sep = right.keys.remove(0);
        let child = right.children.remove(0);
        left.children.push(child);
        i += 1;
        proof {
            assert(left.keys@ =~= mk.take(l + i));
            assert(right.keys@ =~= mk.skip(l + i + 1));
            assert(trees(c1)[0] == mc.skip(l + i)[0]);
            assert(trees(c0).len() == mc.take(l + i).len());
            assert forall|j: int| 0 <= j < l + i implies trees(left.children@)[j] == mc.take(l + i + 1)[j] by {
                assert(trees(c0)[j] == mc.take(l + i)[j]);
            }
            assert(trees(left.children@) =~= mc.take(l + i + 1));
            assert forall|j: int| 0 <= j < trees(right.children@).len() implies trees(right.children@)[j] == mc.skip(l + i + 1)[j] by {
                assert(trees(c1)[j + 1] == mc.skip(l + i)[j + 1]);
            }
            assert(trees(right.children@) =~= mc.skip(l + i + 1));
        }
    }
}

/// Half of `a + b`.
fn half(a: usize, b: usize) -> (r: usize)
    ensures
        r == (a + b) / 2,
{
    a / 2 + b / 2 + (a % 2 + b % 2) / 2
}

/// Two neighbours can be evened out to the right: the right one holds at most one more than the
/// left one, and of two leaves one has an entry.
pub open spec fn evens_right<K, V>(l: Tree<K, V>, r: Tree<K, V>) -> bool {
    &&& r.count() <= l.count() + 1
    &&& l is Leaf ==> l.count() + r.count() >= 1
}

/// Two neighbours can be evened out to the left: the left one holds at most one more than the
/// right one, and two leaves have two entries.
pub open spec fn evens_left<K, V>(l: Tree<K, V>, r: Tree<K, V>) -> bool {
    &&& l.count() <= r.count() + 1
    &&& l is Leaf ==> l.count() + r.count() >= 2
}

/// A node can lend its first entry or child: a leaf keeps one.
pub open spec fn lends_first<K, V>(m: Tree<K, V>) -> bool {
    m.count() >= if m is Leaf {
        2int
    } else {
        1
    }
}

/// Evens two neighbours out by moving the end of `left` over.
pub(crate) fn redistribute_right<K: Ord + Clone, V>(
    sep: &mut K,
    left: &mut Node<K, V>,
    right: &mut Node<K, V>,
)
    requires
        lawful_key::<K>(),
        siblings(old(left).tree(), old(right).tree()),
        evens_right(old(left).tree(), old(right).tree()),
    ensures
        (final(left).tree(), *final(sep), final(right).tree()) == cut(
            join(old(left).tree(), *old(sep), old(right).tree()),
            even_right(old(left).tree(), old(right).tree()),
        ),
{
    match (left, right) {
        (Node::Leaf(left), Node::Leaf(right)) => {
            let ghost e = pairs(left.entries@) + pairs(right.entries@);
            let target = half(left.entries.len(), right.entries.len());
            let mut drained = left.entries.split_off(target);
            drained.append(&mut right.entries);
            right.entries = drained;
            *sep = clone_key(&right.entries[0].key);
            proof {
                assert(pairs(left.entries@) =~= e.take(target as int));
                assert(pairs(right.entries@) =~= e.skip(target as int));
                assert(pairs(right.entries@)[0] == e[target as int]);
            }
        },
        (Node::Internal(left), Node::Internal(right)) => {
            let target = half(left.keys.len(), right.keys.len());
            let keys_to_move = left.keys.len() - target;
            rotate_right(sep, left, right, keys_to_move);
        },
        _ => {
            assert(false);
        },
    }
}

/// Evens two neighbours out by moving the front of `right` over.
pub(crate) fn redistribute_left<K: Ord + Clone, V>(
    sep: &mut K,
    left: &mut Node<K, V>,
    right: &mut Node<K, V>,
)
    requires
        lawful_key::<K>(),
        siblings(old(left).tree(), old(right).tree()),
        evens_left(old(left).tree(), old(right).tree()),
    ensures
        (final(left).tree(), *final(sep), final(right).tree()) == cut(
            join(old(left).tree(), *old(sep), old(right).tree()),
            even_left(old(left).tree(), old(right).tree()),
        ),
{
    match (left, right) {
        (Node::Leaf(left), Node::Leaf(right)) => {
            let ghost e = pairs(left.entries@) + pairs(right.entries@);
            let target = half(left.entries.len(), right.entries.len());
            let keys_to_move = right.entries.len() - target;
            let ghost p = left.entries@.len() + keys_to_move;
            let kept = right.entries.split_off(keys_to_move);
            left.entries.append(&mut right.entries);
            right.entries = kept;
            *sep = clone_key(&right.entries[0].key);
            proof {
                assert(pairs(left.entries@) =~= e.take(p));
                assert(pairs(right.entries@) =~= e.skip(p));
                assert(pairs(right.entries@)[0] == e[p]);
            }
        },
        (Node::Internal(left), Node::Internal(right)) => {
            let target = half(left.keys.len(), right.keys.len());
            let keys_to_move = right.keys.len() - target;
            rotate_left(sep, left, right, keys_to_move);
        },
        _ => {
            assert(false);
        },
    }
}

/// Moves the first entry or child of `right` to the end of `left`.
pub(crate) fn borrow_from_right<K: Ord + Clone, V>(
    sep: &mut K,
    left: &mut Node<K, V>,
    right: &mut Node<K, V>,
)
    requires
        lawful_key::<K>(),
        siblings(old(left).tree(), old(right).tree()),
        lends_first(old(right).tree()),
    ensures
        (final(left).tree(), *final(sep), final(right).tree()) == cut(
            join(old(left).tree(), *old(sep), old(right).tree()),
            old(left).tree().count() as int + 1,
        ),
{
    match (left, right) {
        (Node::Leaf(left), Node::Leaf(right)) => {
            let ghost e = pairs(left.entries@) + pairs(right.entries@);
            let ghost p = left.entries@.len() + 1;
            let removed = right.entries.remove(0);
            *sep = clone_key(&right.entries[0].key);
            left.entries.push(removed);
            proof {
                assert(pairs(left.entries@) =~= e.take(p as int));
                assert(pairs(right.entries@) =~= e.skip(p as int));
                assert(pairs(right.entries@)[0] == e[p as int]);
            }
        },
        (Node::Internal(left), Node::Internal(right)) => {
            rotate_left(sep, left, right, 1);
        },
        _ => {
            assert(false);
        },
    }
}

/// Moves the last entry or child of `left` to the front of `right`.
pub(crate) fn borrow_from_left<K: Ord + Clone, V>(
    sep: &mut K,
    left: &mut Node<K, V>,
    right: &mut Node<K, V>,
)
    requires
        lawful_key::<K>(),
        siblings(old(left).tree(), old(right).tree()),
        old(left).tree().count() >= 1,
    ensures
        (final(left).tree(), *final(sep), final(right).tree()) == cut(
            join(old(left).tree(), *old(sep), old(right).tree()),
            old(left).tree().count() - 1,
        ),
{
    match (left, right) {
        (Node::Leaf(left), Node::Leaf(right)) => {
            let ghost e = pairs(left.entries@) + pairs(right.entries@);
            let ghost p = left.entries@.len() - 1;
            let removed = left.entries.pop().unwrap();
            *sep = clone_key(&removed.key);
            right.entries.insert(0, removed);
            proof {
                assert(pairs(left.entries@) =~= e.take(p));
                assert(pairs(right.entries@) =~= e.skip(p));
                assert(pairs(right.entries@)[0] == e[p]);
            }
        },
        (Node::Internal(left), Node::Internal(right)) => {
            rotate_right(sep, left, right, 1);
        },
        _ => {
            assert(false);
        },
    }
}

impl<K: Ord + Clone, V> Internal<K, V> {
    /// Children `ci` and `ci + 1` are there and of one kind.
    pub open spec fn has_pair(self, ci: int) -> bool {
        &&& self.children@.len() == self.keys@.len() + 1
        &&& 0 <= ci
        &&& ci + 1 < self.children.len()
        &&& siblings(self.children@[ci].tree(), self.children@[ci + 1].tree())
    }

    /// Evens child `ci` out with its right neighbour.
    pub(crate) fn redistribute_right(&mut self, ci: usize)
        requires
            lawful_key::<K>(),
            old(self).has_pair(ci as int),
            evens_right(old(self).children@[ci as int].tree(), old(self).children@[ci + 1].tree()),
        ensures
            ({
                let l = old(self).children@[ci as int].tree();
                let r = old(self).children@[ci + 1].tree();
                final(self).tree() == with_pair(
                    old(self).keys@,
                    trees(old(self).children@),
                    ci as int,
                    cut(join(l, old(self).keys@[ci as int], r), even_right(l, r)),
                )
            }),
    {
        let ghost c = trees(self.children@);
        let (left_slice, right_slice) = self.children.split_at_mut(ci + 1);
        redistribute_right(&mut self.keys[ci], &mut *left_slice[ci], &mut *right_slice[0]);
        proof {
            let ci = ci as int;
            assert(trees(self.children@) =~= c.update(ci, self.children@[ci].tree()).update(
                ci + 1,
                self.children@[ci + 1].tree(),
            ));
        }
    }

    /// Evens child `ci` out with its left neighbour.
    pub(crate) fn redistribute_left(&mut self, ci: usize)
        requires
            lawful_key::<K>(),
            ci >= 1,
            old(self).has_pair(ci - 1),
            evens_left(old(self).children@[ci - 1].tree(), old(self).children@[ci as int].tree()),
        ensures
            ({
                let l = old(self).children@[ci - 1].tree();
                let r = old(self).children@[ci - 1 + 1].tree();
                final(self).tree() == with_pair(
                    old(self).keys@,
                    trees(old(self).children@),
                    ci - 1,
                    cut(join(l, old(self).keys@[ci - 1], r), even_left(l, r)),
                )
            }),
    {
        let ghost c = trees(self.children@);
        let (left_slice, right_slice) = self.children.split_at_mut(ci);
        redistribute_left(&mut self.keys[ci - 1], &mut *left_slice[ci - 1], &mut *right_slice[0]);
        proof {
            let i = ci - 1;
            assert(trees(self.children@) =~= c.update(i, self.children@[i].tree()).update(
                i + 1,
                self.children@[i + 1].tree(),
            ));
        }
    }

    /// Child `ci` takes the first entry or child of its right neighbour.
    pub(crate) fn borrow_from_right(&mut self, ci: usize)
        requires
            lawful_key::<K>(),
            old(self).has_pair(ci as int),
            lends_first(old(self).children@[ci + 1].tree()),
        ensures
            ({
                let l = old(self).children@[ci as int].tree();
                let r = old(self).children@[ci as int + 1].tree();
                final(self).tree() == with_pair(
                    old(self).keys@,
                    trees(old(self).children@),
                    ci as int,
                    cut(join(l, old(self).keys@[ci as int], r), l.count() as int + 1),
                )
            }),
    {
        let ghost c = trees(self.children@);
        let (left_slice, right_slice) = self.children.split_at_mut(ci + 1);
        borrow_from_right(&mut self.keys[ci], &mut *left_slice[ci], &mut *right_slice[0]);
        proof {
            let i = ci as int;
            assert(trees(self.children@) =~= c.update(i, self.children@[i].tree()).update(
                i + 1,
                self.children@[i + 1].tree(),
            ));
        }
    }

    /// Child `ci` takes the last entry or child of its left neighbour.
    pub(crate) fn borrow_from_left(&mut self, ci: usize)
        requires
            lawful_key::<K>(),
            ci >= 1,
            old(self).has_pair(ci - 1),
            old(self).children@[ci - 1].tree().count() >= 1,
        ensures
            ({
                let l = old(self).children@[ci - 1].tree();
                let r = old(self).children@[ci - 1 + 1].tree();
                final(self).tree() == with_pair(
                    old(self).keys@,
                    trees(old(self).children@),
                    ci - 1,
                    cut(join(l, old(self).keys@[ci - 1], r), l.count() - 1),
                )
            }),
    {
        let ghost c = trees(self.children@);
        let (left_slice, right_slice) = self.children.split_at_mut(ci);
        borrow_from_left(&mut self.keys[ci - 1], &mut *left_slice[ci - 1], &mut *right_slice[0]);
        proof {
            let i = ci - 1;
            assert(trees(self.children@) =~= c.update(i, self.children@[i].tree()).update(
                i + 1,
                self.children@[i + 1].tree(),
            ));
        }
    }

    /// Joins child `ci` and its right neighbour.
    pub(crate) fn merge_children(&mut self, ci: usize)
        requires
            lawful_key::<K>(),
            old(self).has_pair(ci as int),
        ensures
            final(self).tree() == with_one(
                old(self).keys@,
                trees(old(self).children@),
                ci as int,
                join(
                    old(self).children@[ci as int].tree(),
                    old(self).keys@[ci as int],
                    old(self).children@[ci + 1].tree(),
                ),
            ),
    {
        let ghost c = trees(self.children@);
        let ghost l = self.children@[ci as int].tree();
        let ghost r = self.children@[ci + 1].tree();
        let right = self.children.remove(ci + 1);
        let separator_key = self.keys.remove(ci);
        let ghost k = separator_key;
        let left = &mut *self.children[ci];
        match (left, *right) {
            (Node::Leaf(left), Node::Leaf(right)) => {
                let mut right = right;
                left.entries.append(&mut right.entries);
                proof {
                    assert(Tree::Leaf(pairs(left.entries@)) == join(l, k, r)) by {
                        assert(pairs(left.entries@) =~= l->Leaf_0 + r->Leaf_0);
                    }
                }
            },
            (Node::Internal(left), Node::Internal(right)) => {
                let mut right = right;
                left.keys.push(separator_key);
                left.keys.append(&mut right.keys);
                left.children.append(&mut right.children);
                proof {
                    assert(trees(left.children@) =~= l->Internal_1 + r->Internal_1);
                    assert(left.keys@ =~= l->Internal_0.push(k) + r->Internal_0);
                }
            },
            _ => {
                assert(false);
            },
        }
        proof {
            let i = ci as int;
            assert(self.children@[i].tree() == join(l, k, r));
            assert(trees(self.children@) =~= c.remove(i + 1).update(i, join(l, k, r)));
        }
    }
}

impl<K: Ord + Clone, V> Internal<K, V> {
    /// One child more than separators, and all children of one kind.
    pub open spec fn uniform(self) -> bool {
        &&& self.children@.len() == self.keys@.len() + 1
        &&& forall|i: int|
            0 <= i < self.children@.len() ==> siblings(
                self.children@[0].tree(),
                (#[trigger] self.children@[i]).tree(),
            )
    }

    /// A node of a search tree is uniform.
    pub(crate) proof fn lemma_uniform(self, h: nat, lo: Option<K>, hi: Option<K>)
        requires
            self.tree().wf(h, lo, hi),
        ensures
            self.uniform(),
    {
        let ch = trees(self.children@);
        assert forall|i: int| 0 <= i < self.children@.len() implies siblings(
            self.children@[0].tree(),
            (#[trigger] self.children@[i]).tree(),
        ) by {
            assert(ch[i].wf((h - 1) as nat, child_lo(self.keys@, i, lo), child_hi(self.keys@, i, hi)));
            assert(ch[0].wf((h - 1) as nat, child_lo(self.keys@, 0, lo), child_hi(self.keys@, 0, hi)));
        }
    }

    /// Makes room in the full child `ci`. A neighbour takes part of the child if it can be
    /// had and holds less than `cap`; if there is none the child is split.
    pub fn make_room(
        &mut self,
        ci: usize,
        t: usize,
        cap: usize,
        right_free: bool,
        left_free: bool,
    )
        requires
            lawful_key::<K>(),
            2 <= t,
            cap <= 2 * t - 1,
            old(self).uniform(),
            ci < old(self).children.len(),
            old(self).children@[ci as int].tree().count() == 2 * t - 1,
        ensures
            final(self).tree() == room_made(
                old(self).keys@,
                trees(old(self).children@),
                ci as int,
                t as int,
                cap as int,
                right_free,
                left_free,
            ),
    {
        assert(siblings(self.children@[0].tree(), self.children@[ci as int].tree()));
        if right_free && ci + 1 < self.children.len() && self.children[ci + 1].key_count() < cap {
            self.redistribute_right(ci);
        } else if left_free && ci > 0 && self.children[ci - 1].key_count() < cap {
            self.redistribute_left(ci);
        } else {
            self.split_child(ci, t);
        }
    }

    /// Fills child `ci` up from a neighbour, or joins it with one.
    pub(crate) fn rebalance(&mut self, ci: usize, t: usize, left_min: usize)
        requires
            lawful_key::<K>(),
            2 <= t,
            1 <= left_min,
            old(self).uniform(),
            ci < old(self).children.len(),
            old(self).children.len() >= 2,
        ensures
            final(self).tree() == rebalanced(
                old(self).keys@,
                trees(old(self).children@),
                ci as int,
                t as int,
                left_min as int,
            ),
    {
        assert(siblings(self.children@[0].tree(), self.children@[ci as int].tree()));
        if ci + 1 < self.children.len() && self.children[ci + 1].key_count() >= t {
            self.borrow_from_right(ci);
        } else if ci > 0 && self.children[ci - 1].key_count() >= left_min {
            self.borrow_from_left(ci);
        } else if ci + 1 < self.children.len() {
            self.merge_children(ci);
        } else {
            self.merge_children(ci - 1);
        }
    }
}

impl<K: Ord + Clone, V> Leaf<K, V> {
    /// Puts `value` under `key`; says whether the key is new.
    pub(crate) fn put(&mut self, key: K, value: V) -> (r: bool)
        requires
            lawful_key::<K>(),
            sorted(pairs(old(self).entries@)),
        ensures
            pairs(final(self).entries@) == put(pairs(old(self).entries@), key, value),
            r == !present(pairs(old(self).entries@), key),
    {
        let ghost s = pairs(self.entries@);
        let ghost k = key;
        proof {
            lemma_rank(s, k);
        }
        match self.find_pos(&key) {
            Ok(i) => {
                self.entries[i].value = value;
                assert(pairs(self.entries@) =~= put(s, k, value));
                false
            },
            Err(i) => {
                self.entries.insert(i, LeafEntry { key, value });
                assert(pairs(self.entries@) =~= put(s, k, value));
                true
            },
        }
    }

    /// Takes the entry under `key` out.
    pub(crate) fn take(&mut self, key: &K) -> (r: Option<V>)
        requires
            lawful_key::<K>(),
            sorted(pairs(old(self).entries@)),
        ensures
            pairs(final(self).entries@) == del(pairs(old(self).entries@), *key),
            r == get(pairs(old(self).entries@), *key),
    {
        let ghost s = pairs(self.entries@);
        match self.find_pos(key) {
            Ok(i) => {
                let e = self.entries.remove(i);
                assert(pairs(self.entries@) =~= del(s, *key));
                Some(e.value)
            },
            Err(_) => None,
        }
    }
}

impl<K: Ord + Clone, V> Node<K, V> {
    /// The value under `key` in the tree below this node.
    pub(crate) fn search_node(
        &self,
        key: &K,
        Ghost(h): Ghost<nat>,
        Ghost(lo): Ghost<Option<K>>,
        Ghost(hi): Ghost<Option<K>>,
    ) -> (r: Option<&V>)
        requires
            lawful_key::<K>(),
            self.tree().wf(h, lo, hi),
            lo_ok(lo, *key),
            hi_ok(*key, hi),
        ensures
            match r {
                Some(v) => get(self.tree().contents(), *key) == Some(*v),
                None => get(self.tree().contents(), *key) is None,
            },
        decreases h,
    {
        proof {
            lemma_total_order::<K>();
        }
        match self {
            Node::Leaf(leaf) => match leaf.find_pos(key) {
                Ok(i) => Some(&leaf.entries[i].value),
                Err(_) => None,
            },
            Node::Internal(internal) => {
                let ci = internal.child_index(key);
                let ghost ch = trees(internal.children@);
                proof {
                    let v: V = arbitrary();
                    lemma_descend(internal.keys@, ch, h, lo, hi, *key, v);
                }
                internal.children[ci].search_node(
                    key,
                    Ghost((h - 1) as nat),
                    Ghost(child_lo(internal.keys@, ci as int, lo)),
                    Ghost(child_hi(internal.keys@, ci as int, hi)),
                )
            },
        }
    }
}

} // verus!
