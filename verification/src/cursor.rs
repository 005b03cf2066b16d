//! Walking over the leaves of an in-memory tree, from left to right.
use crate::entries::{lemma_middle, lemma_rank, rank, sorted};
use crate::node::{pairs, trees, Internal, Leaf, Node};
use crate::order::{lawful_key, le, lemma_total_order, lt, precedes, total_order};
use crate::tree::{
    child_hi, child_lo, flat, hi_ok, lemma_contents, lemma_flat_at, lemma_routed, lo_ok, Tree,
};
use vstd::prelude::*;

verus! {

/// Where a walk ends.
pub enum Bound<K> {
    Included(K),
    Excluded(K),
    Unbounded,
}

/// A walk that ends at `b` still reaches `k`.
pub open spec fn admits<K: PartialOrd>(b: Bound<K>, k: K) -> bool {
    match b {
        Bound::Included(e) => le(k, e),
        Bound::Excluded(e) => lt(k, e),
        Bound::Unbounded => true,
    }
}

impl<K: Ord + Clone> Bound<K> {
    pub(crate) fn reaches(&self, k: &K) -> (r: bool)
        requires
            lawful_key::<K>(),
        ensures
            r == admits(*self, *k),
    {
        match self {
            Bound::Included(e) => !precedes(e, k),
            Bound::Excluded(e) => precedes(k, e),
            Bound::Unbounded => true,
        }
    }
}

/// How many of the leading entries a walk that ends at `b` reaches.
pub open spec fn leading<K: PartialOrd, V>(s: Seq<(K, V)>, b: Bound<K>) -> nat
    decreases s.len(),
{
    if s.len() == 0 || !admits(b, s[0].0) {
        0
    } else {
        1 + leading(s.drop_first(), b)
    }
}

/// The entries of `s` whose keys are not below `start` and that a walk to `end` reaches.
pub open spec fn range<K: PartialOrd, V>(s: Seq<(K, V)>, start: K, end: Bound<K>) -> Seq<(K, V)> {
    s.filter(|e: (K, V)| le(start, e.0) && admits(end, e.0))
}

pub proof fn lemma_leading<K: PartialOrd, V>(s: Seq<(K, V)>, b: Bound<K>)
    requires
        total_order::<K>(),
        sorted(s),
    ensures
        leading(s, b) <= s.len(),
        forall|i: int| 0 <= i < s.len() ==> (admits(b, (#[trigger] s[i]).0) <==> i < leading(s, b)),
    decreases s.len(),
{
    if s.len() > 0 {
        let t = s.drop_first();
        assert(sorted(t));
        lemma_leading(t, b);
        assert forall|i: int| 0 <= i < s.len() implies (admits(b, (#[trigger] s[i]).0) <==> i < leading(
            s,
            b,
        )) by {
            if i > 0 {
                assert(s[i] == t[i - 1]);
                assert(lt(s[0].0, s[i].0));
            }
        }
    }
}

proof fn lemma_filter_window<T>(s: Seq<T>, p: spec_fn(T) -> bool, a: int, b: int)
    requires
        0 <= a <= b <= s.len(),
        forall|i: int| 0 <= i < s.len() ==> (p(#[trigger] s[i]) <==> a <= i < b),
    ensures
        s.filter(p) == s.subrange(a, b),
    decreases s.len(),
{
    reveal(Seq::filter);
    if s.len() > 0 {
        let t = s.drop_last();
        let n = s.len() - 1;
        assert forall|i: int| 0 <= i < t.len() implies (p(#[trigger] t[i]) <==> a <= i < b) by {
            assert(t[i] == s[i]);
        }
        if b == s.len() && a < b {
            lemma_filter_window(t, p, a, n);
            assert(p(s[n]));
            assert(t.subrange(a, n).push(s[n]) =~= s.subrange(a, b));
        } else if b == s.len() {
            lemma_filter_window(t, p, n, n);
            assert(!p(s[n]));
            assert(t.subrange(n, n) =~= s.subrange(a, b));
        } else {
            lemma_filter_window(t, p, a, b);
            assert(!p(s[n]));
            assert(t.subrange(a, b) =~= s.subrange(a, b));
        }
    }
}

/// Walking from the first entry that does not sort before `start` up to `end` meets the
/// entries of the range, in order.
pub proof fn lemma_range<K: PartialOrd, V>(s: Seq<(K, V)>, start: K, end: Bound<K>)
    requires
        total_order::<K>(),
        sorted(s),
    ensures
        ({
            let rest = s.skip(rank(s, start) as int);
            rest.take(leading(rest, end) as int) == range(s, start, end)
        }),
{
    let r = rank(s, start) as int;
    let rest = s.skip(r);
    lemma_rank(s, start);
    assert(sorted(rest));
    lemma_leading(rest, end);
    let b = r + leading(rest, end);
    let p = |e: (K, V)| le(start, e.0) && admits(end, e.0);
    assert forall|i: int| 0 <= i < s.len() implies (p(#[trigger] s[i]) <==> r <= i < b) by {
        if i >= r {
            assert(rest[i - r] == s[i]);
        }
    }
    lemma_filter_window(s, p, r, b);
    assert(rest.take(leading(rest, end) as int) =~= s.subrange(r, b));
}

/// A walk without an end reaches everything.
proof fn lemma_unbounded<K: PartialOrd, V>(s: Seq<(K, V)>)
    ensures
        leading(s, Bound::Unbounded) == s.len(),
    decreases s.len(),
{
    if s.len() > 0 {
        lemma_unbounded(s.drop_first());
    }
}

/// Every inner node of the tree has a child.
pub open spec fn proper<K, V>(m: Tree<K, V>) -> bool
    decreases m,
{
    m matches Tree::Internal(_, ch) ==> ch.len() > 0 && forall|i: int|
        0 <= i < ch.len() ==> proper(#[trigger] ch[i])
}

/// The number of leaves of a tree.
pub open spec fn leaf_count<K, V>(m: Tree<K, V>) -> nat
    decreases m,
{
    match m {
        Tree::Leaf(_) => 1,
        Tree::Internal(_, ch) => leaf_total(ch),
    }
}

/// The number of leaves of a row of trees.
pub open spec fn leaf_total<K, V>(ch: Seq<Tree<K, V>>) -> nat
    decreases ch,
{
    if ch.len() == 0 {
        0
    } else {
        leaf_count(ch[0]) + leaf_total(ch.drop_first())
    }
}

pub proof fn lemma_proper<K: PartialOrd, V>(m: Tree<K, V>, h: nat, lo: Option<K>, hi: Option<K>)
    requires
        m.wf(h, lo, hi),
    ensures
        proper(m),
    decreases h,
{
    if let Tree::Internal(keys, ch) = m {
        assert forall|i: int| 0 <= i < ch.len() implies proper(#[trigger] ch[i]) by {
            lemma_proper(ch[i], (h - 1) as nat, child_lo(keys, i, lo), child_hi(keys, i, hi));
        }
    }
}

/// What lies to the right of the way down to the current leaf.
pub open spec fn pending<K: Ord + Clone, V>(stack: Seq<(&Internal<K, V>, usize)>) -> Seq<(K, V)>
    decreases stack.len(),
{
    if stack.len() == 0 {
        Seq::empty()
    } else {
        let (n, i) = stack.last();
        flat(trees(n.children@).skip(i as int + 1)) + pending(stack.drop_last())
    }
}

/// How many leaves lie to the right of the way down to the current leaf.
pub open spec fn pending_leaves<K: Ord + Clone, V>(stack: Seq<(&Internal<K, V>, usize)>) -> nat
    decreases stack.len(),
{
    if stack.len() == 0 {
        0
    } else {
        let (n, i) = stack.last();
        leaf_total(trees(n.children@).skip(i as int + 1)) + pending_leaves(stack.drop_last())
    }
}

/// The way down is made of nodes with proper children.
pub open spec fn way_ok<K: Ord + Clone, V>(stack: Seq<(&Internal<K, V>, usize)>) -> bool {
    forall|j: int|
        0 <= j < stack.len() ==> (#[trigger] stack[j]).1 < stack[j].0.children@.len() && proper(
            stack[j].0.tree(),
        )
}

/// Takes a step from an inner node to its child `i`.
proof fn lemma_push<K: Ord + Clone, V>(
    stack: Seq<(&Internal<K, V>, usize)>,
    n: &Internal<K, V>,
    i: usize,
)
    requires
        way_ok(stack),
        proper(n.tree()),
        i < n.children@.len(),
    ensures
        way_ok(stack.push((n, i))),
        pending(stack.push((n, i))) == flat(trees(n.children@).skip(i as int + 1)) + pending(stack),
        pending_leaves(stack.push((n, i))) == leaf_total(trees(n.children@).skip(i as int + 1))
            + pending_leaves(stack),
{
    let s = stack.push((n, i));
    assert(s.drop_last() =~= stack);
}

/// Goes down to the leftmost leaf.
pub(crate) fn leftmost_leaf<'a, K: Ord + Clone, V>(
    node: &'a Node<K, V>,
    stack: &mut Vec<(&'a Internal<K, V>, usize)>,
) -> (r: &'a Leaf<K, V>)
    requires
        proper(node.tree()),
        way_ok(old(stack)@),
    ensures
        way_ok(final(stack)@),
        pairs(r.entries@) + pending(final(stack)@) == node.tree().contents() + pending(old(stack)@),
        1 + pending_leaves(final(stack)@) == leaf_count(node.tree()) + pending_leaves(old(stack)@),
    decreases node,
{
    match node {
        Node::Leaf(leaf) => leaf,
        Node::Internal(internal) => {
            let ghost s0 = stack@;
            let ghost ch = trees(internal.children@);
            stack.push((internal, 0));
            proof {
                assert(proper(internal.tree()));
                lemma_push(s0, internal, 0);
                lemma_flat_at(ch, 0);
                assert(ch.take(0) =~= Seq::empty());
                assert(ch.skip(1) =~= ch.drop_first());
                assert(proper(ch[0]));
            }
            let leaf = leftmost_leaf(&*internal.children[0], stack);
            proof {
                assert(pairs(leaf.entries@) + pending(stack@) =~= flat(ch) + pending(s0));
            }
            leaf
        },
    }
}

/// Goes down to the leaf that `key` belongs to.
pub(crate) fn find_leaf<'a, K: Ord + Clone, V>(
    node: &'a Node<K, V>,
    key: &K,
    stack: &mut Vec<(&'a Internal<K, V>, usize)>,
    Ghost(h): Ghost<nat>,
    Ghost(lo): Ghost<Option<K>>,
    Ghost(hi): Ghost<Option<K>>,
) -> (r: &'a Leaf<K, V>)
    requires
        lawful_key::<K>(),
        node.tree().wf(h, lo, hi),
        lo_ok(lo, *key),
        hi_ok(*key, hi),
        way_ok(old(stack)@),
    ensures
        way_ok(final(stack)@),
        sorted(pairs(r.entries@)),
        ({
            let e = pairs(r.entries@);
            let c = node.tree().contents();
            e.skip(rank(e, *key) as int) + pending(final(stack)@) == c.skip(rank(c, *key) as int)
                + pending(old(stack)@)
        }),
    decreases h,
{
    proof {
        lemma_total_order::<K>();
    }
    match node {
        Node::Leaf(leaf) => leaf,
        Node::Internal(internal) => {
            let ghost s0 = stack@;
            let ghost k = internal.keys@;
            let ghost ch = trees(internal.children@);
            let ci = internal.child_index(key);
            proof {
                lemma_proper(internal.tree(), h, lo, hi);
                lemma_routed(k, ch, h, lo, hi, *key);
                lemma_push(s0, internal, ci);
                assert(ch[ci as int].wf(
                    (h - 1) as nat,
                    child_lo(k, ci as int, lo),
                    child_hi(k, ci as int, hi),
                ));
            }
            stack.push((internal, ci));
            let leaf = find_leaf(
                &*internal.children[ci],
                key,
                stack,
                Ghost((h - 1) as nat),
                Ghost(child_lo(k, ci as int, lo)),
                Ghost(child_hi(k, ci as int, hi)),
            );
            proof {
                let ci = ci as int;
                let a = flat(ch.take(ci));
                let c = ch[ci].contents();
                let b = flat(ch.skip(ci + 1));
                let e = pairs(leaf.entries@);
                let v: V = arbitrary();
                lemma_flat_at(ch, ci);
                lemma_middle(a, c, b, *key, v);
                lemma_rank(c, *key);
                assert((a + c + b).skip(rank(a + c + b, *key) as int) =~= c.skip(rank(c, *key) as int) + b);
                assert(e.skip(rank(e, *key) as int) + pending(stack@) =~= flat(ch).skip(
                    rank(flat(ch), *key) as int,
                ) + pending(s0));
            }
            leaf
        },
    }
}

/// A place in the walk: the current leaf, the way down to it, and the next entry.
pub struct Cursor<'a, K: Ord + Clone, V> {
    pub stack: Vec<(&'a Internal<K, V>, usize)>,
    pub current: Option<&'a Leaf<K, V>>,
    pub pos: usize,
}

impl<'a, K: Ord + Clone, V> Cursor<'a, K, V> {
    pub open spec fn wf(&self) -> bool {
        &&& way_ok(self.stack@)
        &&& self.current matches Some(leaf) ==> self.pos <= leaf.entries.len()
        &&& self.current is None ==> self.stack@.len() == 0
    }

    /// What the walk has not passed yet.
    pub open spec fn rest(&self) -> Seq<(K, V)> {
        match self.current {
            Some(leaf) => pairs(leaf.entries@).skip(self.pos as int) + pending(self.stack@),
            None => Seq::empty(),
        }
    }

    /// The leaves that the walk has not left yet.
    pub open spec fn leaves_left(&self) -> nat {
        match self.current {
            Some(_) => 1 + pending_leaves(self.stack@),
            None => 0,
        }
    }

    /// Starts at the leftmost entry below `root`.
    pub(crate) fn first(root: &'a Node<K, V>) -> (r: Self)
        requires
            proper(root.tree()),
        ensures
            r.wf(),
            r.rest() == root.tree().contents(),
    {
        let mut stack: Vec<(&'a Internal<K, V>, usize)> = Vec::new();
        let leaf = leftmost_leaf(root, &mut stack);
        let r = Cursor { stack, current: Some(leaf), pos: 0 };
        assert(pairs(leaf.entries@).skip(0) =~= pairs(leaf.entries@));
        assert(root.tree().contents() + Seq::<(K, V)>::empty() =~= root.tree().contents());
        r
    }

    /// Starts at the first entry that does not sort before `start`.
    pub(crate) fn from(
        root: &'a Node<K, V>,
        start: &K,
        Ghost(h): Ghost<nat>,
    ) -> (r: Self)
        requires
            lawful_key::<K>(),
            root.tree().wf(h, None, None),
        ensures
            r.wf(),
            r.rest() == root.tree().contents().skip(rank(root.tree().contents(), *start) as int),
    {
        let mut stack: Vec<(&'a Internal<K, V>, usize)> = Vec::new();
        let leaf = find_leaf(root, start, &mut stack, Ghost(h), Ghost(None), Ghost(None));
        proof {
            lemma_rank(pairs(leaf.entries@), *start);
        }
        let pos = match leaf.find_pos(start) {
            Ok(i) => i,
            Err(i) => i,
        };
        let r = Cursor { stack, current: Some(leaf), pos };
        proof {
            let c = root.tree().contents().skip(rank(root.tree().contents(), *start) as int);
            assert(c + Seq::<(K, V)>::empty() =~= c);
        }
        r
    }

    /// Leaves the current leaf, which has been walked to its end.
    fn next_leaf(&mut self)
        requires
            old(self).wf(),
            old(self).current matches Some(leaf) && old(self).pos == leaf.entries@.len(),
        ensures
            final(self).wf(),
            final(self).rest() == old(self).rest(),
            final(self).leaves_left() < old(self).leaves_left(),
    {
        let ghost r0 = self.rest();
        proof {
            assert(r0 =~= pending(self.stack@));
        }
        let ghost p0 = pending_leaves(self.stack@);
        self.pos = 0;
        self.current = None;
        while self.stack.len() > 0
            invariant_except_break
                way_ok(self.stack@),
                pending(self.stack@) == r0,
                pending_leaves(self.stack@) <= p0,
                self.current is None,
                self.pos == 0,
            ensures
                self.wf(),
                self.rest() == r0,
                self.leaves_left() <= p0,
            decreases self.stack@.len(),
        {
            let ghost s0 = self.stack@;
            let (n, i) = self.stack.pop().unwrap();
            let ghost ch = trees(n.children@);
            proof {
                assert(s0.drop_last() =~= self.stack@);
                assert(s0.last() == (n, i));
                assert forall|j: int| 0 <= j < self.stack@.len() implies (#[trigger] self.stack@[j]).1
                    < self.stack@[j].0.children@.len() && proper(self.stack@[j].0.tree()) by {
                    assert(self.stack@[j] == s0[j]);
                }
                assert(s0[s0.len() - 1].1 < n.children@.len() && proper(n.tree()));
            }
            let m = n.children.len();
            if i + 1 < m {
                let ghost s1 = self.stack@;
                proof {
                    lemma_push(s1, n, (i + 1) as usize);
                    lemma_flat_at(ch.skip(i + 1), 0);
                    assert(ch.skip(i + 1).take(0) =~= Seq::empty());
                    assert(ch.skip(i + 1).skip(1) =~= ch.skip(i + 2));
                    assert(ch.skip(i + 1).drop_first() =~= ch.skip(i + 2));
                    assert(ch.skip(i + 1)[0] == ch[i + 1]);
                    assert(proper(ch[i + 1]));
                }
                self.stack.push((n, i + 1));
                let leaf = leftmost_leaf(&*n.children[i + 1], &mut self.stack);
                self.current = Some(leaf);
                proof {
                    assert(pairs(leaf.entries@).skip(0) =~= pairs(leaf.entries@));
                    assert(self.rest() =~= r0);
                }
                break;
            } else {
                proof {
                    assert(ch.skip(i + 1) =~= Seq::empty());
                    assert(pending(self.stack@) =~= r0);
                }
            }
        }
    }

    /// The next entry, without passing it.
    pub(crate) fn peek(&mut self) -> (r: Option<(&'a K, &'a V)>)
        requires
            old(self).wf(),
        ensures
            final(self).wf(),
            final(self).rest() == old(self).rest(),
            match r {
                Some((k, v)) => {
                    &&& old(self).rest().len() > 0
                    &&& old(self).rest()[0] == (*k, *v)
                    &&& final(self).current matches Some(leaf) && final(self).pos < leaf.entries@.len()
                },
                None => old(self).rest().len() == 0,
            },
    {
        while self.current.is_some()
            invariant
                self.wf(),
                self.rest() == old(self).rest(),
            decreases self.leaves_left(),
        {
            let leaf = self.current.unwrap();
            if self.pos < leaf.entries.len() {
                let e = &leaf.entries[self.pos];
                assert(self.rest()[0] == pairs(leaf.entries@)[self.pos as int]);
                return Some((&e.key, &e.value));
            }
            self.next_leaf();
        }
        None
    }

    /// Passes the entry that `peek` gave.
    pub(crate) fn pass(&mut self)
        requires
            old(self).wf(),
            old(self).current matches Some(leaf) && old(self).pos < leaf.entries.len(),
        ensures
            final(self).wf(),
            final(self).rest() == old(self).rest().skip(1),
    {
        let ghost r0 = self.rest();
        self.pos = self.pos + 1;
        assert(self.rest() =~= r0.skip(1));
    }
}

/// A walk over the entries of a tree, in key order, up to a bound.
pub struct LeafIter<'a, K: Ord + Clone, V> {
    cursor: Cursor<'a, K, V>,
    end: Bound<K>,
}

impl<'a, K: Ord + Clone, V> LeafIter<'a, K, V> {
    pub closed spec fn wf(&self) -> bool {
        self.cursor.wf()
    }

    /// The entries that the walk has yet to give, in order.
    pub closed spec fn remaining(&self) -> Seq<(K, V)> {
        self.cursor.rest().take(leading(self.cursor.rest(), self.end) as int)
    }

    /// A walk over everything below `root`.
    pub(crate) fn all(root: &'a Node<K, V>) -> (r: Self)
        requires
            proper(root.tree()),
        ensures
            r.wf(),
            r.remaining() == root.tree().contents(),
    {
        let r = LeafIter { cursor: Cursor::first(root), end: Bound::Unbounded };
        proof {
            lemma_unbounded(r.cursor.rest());
            assert(r.remaining() =~= root.tree().contents());
        }
        r
    }

    /// A walk over the entries below `root` from `start` to `end`.
    pub(crate) fn between(
        root: &'a Node<K, V>,
        start: &K,
        end: Bound<K>,
        Ghost(h): Ghost<nat>,
    ) -> (r: Self)
        requires
            lawful_key::<K>(),
            root.tree().wf(h, None, None),
        ensures
            r.wf(),
            r.remaining() == range(root.tree().contents(), *start, end),
    {
        let r = LeafIter { cursor: Cursor::from(root, start, Ghost(h)), end };
        proof {
            lemma_total_order::<K>();
            lemma_contents(root.tree(), h, None, None);
            lemma_range(root.tree().contents(), *start, end);
        }
        r
    }

    /// The next entry of the walk.
    pub fn next(&mut self) -> (r: Option<(&'a K, &'a V)>)
        requires
            lawful_key::<K>(),
            old(self).wf(),
        ensures
            final(self).wf(),
            match r {
                Some((k, v)) => {
                    &&& old(self).remaining().len() > 0
                    &&& old(self).remaining()[0] == (*k, *v)
                    &&& final(self).remaining() == old(self).remaining().skip(1)
                },
                None => old(self).remaining().len() == 0 && final(self).remaining()
                    == old(self).remaining(),
            },
    {
        let ghost rest = self.cursor.rest();
        match self.cursor.peek() {
            Some((k, v)) => {
                if self.end.reaches(k) {
                    proof {
                        lemma_leading_len(rest, self.end);
                        lemma_leading_len(rest.drop_first(), self.end);
                    }
                    self.cursor.pass();
                    proof {
                        assert(rest.skip(1) =~= rest.drop_first());
                        assert(self.remaining() =~= old(self).remaining().skip(1));
                    }
                    Some((k, v))
                } else {
                    None
                }
            },
            None => None,
        }
    }
}

pub proof fn lemma_leading_len<K: PartialOrd, V>(s: Seq<(K, V)>, b: Bound<K>)
    ensures
        leading(s, b) <= s.len(),
    decreases s.len(),
{
    if s.len() > 0 {
        lemma_leading_len(s.drop_first(), b);
    }
}

} // verus!
