//! Joining neighbouring nodes and dealing them out again.
use crate::bytes::{compare, lemma_bytes_order, Rank};
use crate::bytetree::{
    begin, fences, found, lemma_begin, lemma_place_is, lemma_right_route_is, place, right_route,
    rising, share,
};
use crate::codec::{
    entry_views, internal_cell, key_views, leaf_cell, legible, lemma_total, node_of, total,
    Internal, Leaf, Node, NodeView,
};
use crate::key::Key;
use crate::page::SLOTS;
use crate::paged::{join_views, part_view};
use crate::store::{NULL_PAGE, PAGE_SIZE, PageId};
use vstd::bytes::{lemma_auto_spec_u16_to_from_le_bytes, lemma_auto_spec_u64_to_from_le_bytes};
use vstd::prelude::*;

verus! {

impl Leaf {
    /// Where `key` stands among the entries, or where it would have to stand.
    pub fn find_pos(&self, key: &Key) -> (r: Result<usize, usize>)
        ensures
            match r {
                Ok(i) => i < self.entries@.len(),
                Err(i) => i <= self.entries@.len(),
            },
            rising(entry_views(self.entries@)) ==> match r {
                Ok(i) => found(entry_views(self.entries@), key@) && i == place(
                    entry_views(self.entries@),
                    key@,
                ),
                Err(i) => !found(entry_views(self.entries@), key@) && i == place(
                    entry_views(self.entries@),
                    key@,
                ),
            },
    {
        let ghost e = entry_views(self.entries@);
        let mut lo: usize = 0;
        let mut hi = self.entries.len();
        while lo < hi
            invariant
                lo <= hi <= self.entries@.len(),
                e == entry_views(self.entries@),
                lo > 0 ==> crate::bytes::bytes_lt(e[lo - 1].0, key@),
                hi < e.len() ==> !crate::bytes::bytes_lt(e[hi as int].0, key@),
            decreases hi - lo,
        {
            proof {
                lemma_bytes_order();
            }
            let mid = lo + (hi - lo) / 2;
            assert(e[mid as int] == self.entries@[mid as int]@);
            match compare(self.entries[mid].key.as_bytes(), key.as_bytes()) {
                Rank::Below => {
                    lo = mid + 1;
                },
                _ => {
                    hi = mid;
                },
            }
        }
        proof {
            if rising(e) {
                lemma_place_is(e, key@, lo as int);
            }
        }
        if lo < self.entries.len() {
            assert(e[lo as int] == self.entries@[lo as int]@);
            match compare(self.entries[lo].key.as_bytes(), key.as_bytes()) {
                Rank::Same => Ok(lo),
                _ => Err(lo),
            }
        } else {
            Err(lo)
        }
    }
}

impl Internal {
    /// The child to the right of the last key that is not above `key`.
    pub fn child_index(&self, key: &Key) -> (r: usize)
        ensures
            fences(key_views(self.keys@), None, None) ==> r == right_route(key_views(self.keys@), key@),
            r <= self.keys@.len(),
    {
        let ghost k = key_views(self.keys@);
        let mut lo: usize = 0;
        let mut hi = self.keys.len();
        while lo < hi
            invariant
                lo <= hi <= self.keys@.len(),
                k == key_views(self.keys@),
                lo > 0 ==> crate::bytes::bytes_le(k[lo - 1], key@),
                hi < k.len() ==> crate::bytes::bytes_lt(key@, k[hi as int]),
            decreases hi - lo,
        {
            proof {
                lemma_bytes_order();
            }
            let mid = lo + (hi - lo) / 2;
            assert(k[mid as int] == self.keys@[mid as int]@);
            match compare(key.as_bytes(), self.keys[mid].as_bytes()) {
                Rank::Below => {
                    hi = mid;
                },
                _ => {
                    lo = mid + 1;
                },
            }
        }
        proof {
            if fences(k, None, None) {
                lemma_right_route_is(k, key@, lo as int);
            }
        }
        lo
    }
}

/// Both nodes are leaves, or both are inner nodes.
pub open spec fn same_kind(a: NodeView, b: NodeView) -> bool {
    a is Leaf == b is Leaf
}

/// Makes one node of two neighbours with the separator `sep` between them.
pub(crate) fn join_nodes(left: Node, sep: &Key, right: Node) -> (r: Node)
    requires
        same_kind(left@, right@),
    ensures
        r@ == join_views(left@, sep@, right@),
{
    match (left, right) {
        (Node::Leaf(a), Node::Leaf(b)) => {
            let mut entries = a.entries;
            let mut more = b.entries;
            let ghost x = entries@;
            let ghost y = more@;
            entries.append(&mut more);
            assert(entry_views(entries@) =~= entry_views(x) + entry_views(y));
            Node::Leaf(Leaf { entries, next: b.next })
        },
        (Node::Internal(a), Node::Internal(b)) => {
            let mut keys = a.keys;
            let mut more_keys = b.keys;
            let mut children = a.children;
            let mut more_children = b.children;
            let ghost x = keys@;
            let ghost y = more_keys@;
            keys.push(sep.clone());
            keys.append(&mut more_keys);
            children.append(&mut more_children);
            assert(key_views(keys@) =~= key_views(x).push(sep@) + key_views(y));
            Node::Internal(Internal { keys, children })
        },
        (left, _) => left,
    }
}

/// The separator behind part `i` of a node that is dealt out to `n` nodes.
pub open spec fn fence_view(v: NodeView, n: int, i: int) -> Seq<u8> {
    match v {
        NodeView::Leaf(e, _) => e[begin(e.len() as int, n, i + 1)].0,
        NodeView::Internal(k, _) => k[begin(k.len() - (n - 1), n, i + 1) + i],
    }
}

/// A node can be dealt out to `n` nodes.
pub open spec fn can_deal_view(v: NodeView, n: int) -> bool {
    match v {
        NodeView::Leaf(e, _) => n == 1 || n <= e.len(),
        NodeView::Internal(k, c) => n - 1 <= k.len() && c.len() == k.len() + 1,
    }
}

/// What a node is dealt out to.
pub open spec fn dealt_out(
    v: NodeView,
    ids: Seq<PageId>,
    parts: Seq<Node>,
    seps: Seq<Key>,
) -> bool {
    &&& parts.len() == ids.len()
    &&& seps.len() == ids.len() - 1
    &&& forall|i: int| 0 <= i < parts.len() ==> (#[trigger] parts[i])@ == part_view(v, ids, i)
    &&& forall|i: int| 0 <= i < seps.len() ==> (#[trigger] seps[i])@ == fence_view(
        v,
        ids.len() as int,
        i,
    )
}

fn deal_leaf(leaf: Leaf, ids: &Vec<PageId>) -> (r: (Vec<Node>, Vec<Key>))
    requires
        1 <= ids@.len(),
        can_deal_view(leaf@, ids@.len() as int),
    ensures
        dealt_out(leaf@, ids@, r.0@, r.1@),
{
    let n = ids.len();
    let ghost v = leaf@;
    let ghost e = entry_views(leaf.entries@);
    let size = leaf.entries.len();
    let ghost t = size as int;
    let last = leaf.next;
    let chunk = size / n;
    let rem = size % n;
    let mut rest = leaf.entries;
    let mut parts: Vec<Node> = Vec::with_capacity(n);
    let mut seps: Vec<Key> = Vec::new();
    let mut i: usize = 0;
    proof {
        lemma_begin(t, n as int, 0);
        assert(e.skip(0) =~= e);
    }
    while i < n
        invariant
            i <= n,
            n == ids@.len(),
            1 <= n,
            t == e.len(),
            t == size,
            v == NodeView::Leaf(e, last),
            can_deal_view(v, n as int),
            chunk == t / n as int,
            rem == t % n as int,
            parts@.len() == i,
            seps@.len() == if i == 0 {
                0
            } else {
                i - 1
            },
            entry_views(rest@) == e.skip(begin(t, n as int, i as int)),
            forall|j: int| 0 <= j < i ==> (#[trigger] parts@[j])@ == part_view(v, ids@, j),
            forall|j: int| 0 <= j < seps@.len() ==> (#[trigger] seps@[j])@ == fence_view(v, n as int, j),
        decreases n - i,
    {
        let ghost a = begin(t, n as int, i as int);
        let ghost b = begin(t, n as int, i + 1);
        proof {
            lemma_begin(t, n as int, i as int);
            lemma_begin(t, n as int, i + 1);
            assert(entry_views(rest@).len() == t - a);
            assert(share(t, n as int, i as int) <= t);
        }
        let count = if i < rem {
            chunk + 1
        } else {
            chunk
        };
        let ghost before = rest@;
        assert(count == share(t, n as int, i as int));
        let tail = rest.split_off(count);
        let entries = rest;
        rest = tail;
        proof {
            assert(entry_views(entries@) =~= e.subrange(a, b)) by {
                assert forall|j: int| 0 <= j < entries@.len() implies entries@[j]@ == e[a + j] by {
                    assert(entries@[j] == before[j]);
                    assert(entry_views(before)[j] == e.skip(a)[j]);
                }
            }
            assert(entry_views(rest@) =~= e.skip(b)) by {
                assert forall|j: int| 0 <= j < rest@.len() implies rest@[j]@ == e[b + j] by {
                    assert(rest@[j] == before[count + j]);
                    assert(entry_views(before)[count + j] == e.skip(a)[count + j]);
                }
            }
        }
        if i > 0 {
            assert(entry_views(entries@)[0] == entries@[0]@);
            seps.push(entries[0].key.clone());
        }
        let next = if i < n - 1 {
            Some(ids[i + 1])
        } else {
            last
        };
        parts.push(Node::Leaf(Leaf { entries, next }));
        i += 1;
    }
    (parts, seps)
}

fn deal_internal(internal: Internal, ids: &Vec<PageId>) -> (r: (Vec<Node>, Vec<Key>))
    requires
        1 <= ids@.len(),
        can_deal_view(internal@, ids@.len() as int),
    ensures
        dealt_out(internal@, ids@, r.0@, r.1@),
{
    let n = ids.len();
    let ghost v = internal@;
    let ghost k = key_views(internal.keys@);
    let ghost c = internal.children@;
    let size = internal.keys.len() - (n - 1);
    let ghost t = size as int;
    let chunk = size / n;
    let rem = size % n;
    let mut keys = internal.keys;
    let mut children = internal.children;
    let mut parts: Vec<Node> = Vec::with_capacity(n);
    let mut seps: Vec<Key> = Vec::new();
    let mut i: usize = 0;
    proof {
        lemma_begin(t, n as int, 0);
        assert(k.skip(0) =~= k);
        assert(c.skip(0) =~= c);
    }
    while i < n
        invariant
            i <= n,
            n == ids@.len(),
            1 <= n,
            t == k.len() - (n - 1),
            0 <= t,
            t == size,
            c.len() == k.len() + 1,
            v == NodeView::Internal(k, c),
            chunk == t / n as int,
            rem == t % n as int,
            parts@.len() == i,
            seps@.len() == if i < n {
                i as int
            } else {
                n - 1
            },
            i < n ==> key_views(keys@) == k.skip(begin(t, n as int, i as int) + i),
            i < n ==> children@ == c.skip(begin(t, n as int, i as int) + i),
            forall|j: int| 0 <= j < i ==> (#[trigger] parts@[j])@ == part_view(v, ids@, j),
            forall|j: int| 0 <= j < seps@.len() ==> (#[trigger] seps@[j])@ == fence_view(v, n as int, j),
        decreases n - i,
    {
        let ghost a = begin(t, n as int, i as int) + i;
        let ghost b = begin(t, n as int, i + 1) + i;
        proof {
            lemma_begin(t, n as int, i as int);
            lemma_begin(t, n as int, i + 1);
            assert(key_views(keys@).len() == k.len() - a);
            assert(share(t, n as int, i as int) <= t);
        }
        let count = if i < rem {
            chunk + 1
        } else {
            chunk
        };
        assert(count == share(t, n as int, i as int));
        let ghost k0 = keys@;
        assert(count + 1 <= children.len());
        let mut tail_keys = keys.split_off(count);
        let tail_children = children.split_off(count + 1);
        let part_keys = keys;
        let part_children = children;
        proof {
            assert(key_views(part_keys@) =~= k.subrange(a, b)) by {
                assert forall|j: int| 0 <= j < part_keys@.len() implies part_keys@[j]@ == k[a + j] by {
                    assert(part_keys@[j] == k0[j]);
                    assert(key_views(k0)[j] == k.skip(a)[j]);
                }
            }
            assert(part_children@ =~= c.subrange(a, b + 1));
            assert forall|j: int| 0 <= j < tail_keys@.len() implies tail_keys@[j]@ == k[b + j] by {
                assert(tail_keys@[j] == k0[count + j]);
                assert(key_views(k0)[count + j] == k.skip(a)[count + j]);
            }
        }
        parts.push(Node::Internal(Internal { keys: part_keys, children: part_children }));
        if i < n - 1 {
            seps.push(tail_keys.remove(0));
            proof {
                assert(key_views(tail_keys@) =~= k.skip(b + 1));
                assert(tail_children@ =~= c.skip(b + 1));
            }
        }
        keys = tail_keys;
        children = tail_children;
        i += 1;
    }
    (parts, seps)
}

/// Deals a node out to the pages `ids` as evenly as can be.
pub(crate) fn deal(node: Node, ids: &Vec<PageId>) -> (r: (Vec<Node>, Vec<Key>))
    requires
        1 <= ids@.len(),
        can_deal_view(node@, ids@.len() as int),
    ensures
        dealt_out(node@, ids@, r.0@, r.1@),
{
    match node {
        Node::Leaf(leaf) => deal_leaf(leaf, ids),
        Node::Internal(internal) => deal_internal(internal, ids),
    }
}

impl Node {
    /// The node can be dealt out to `n` nodes.
    pub(crate) fn can_deal(&self, n: usize) -> (r: bool)
        requires
            1 <= n,
            self@ matches NodeView::Internal(k, c) ==> c.len() == k.len() + 1,
        ensures
            r == can_deal_view(self@, n as int),
    {
        match self {
            Node::Leaf(leaf) => {
                assert(entry_views(leaf.entries@).len() == leaf.entries@.len());
                n == 1 || n <= leaf.entries.len()
            },
            Node::Internal(internal) => {
                assert(key_views(internal.keys@).len() == internal.keys@.len());
                n - 1 <= internal.keys.len()
            },
        }
    }

    /// The bytes of the cells together, unless they are more than a page has.
    fn cell_bytes(&self) -> (r: Option<usize>)
        ensures
            match r {
                Some(n) => n == total(self@.cells(), self@.cells().len() as int) && self@.packs(),
                None => !self@.packs(),
            },
    {
        let ghost cells = self@.cells();
        let n = match self {
            Node::Leaf(leaf) => leaf.entries.len(),
            Node::Internal(internal) => internal.keys.len(),
        };
        let mut used: usize = 0;
        let mut i: usize = 0;
        while i < n
            invariant
                i <= n,
                n == self.spec_count(),
                cells == self@.cells(),
                cells.len() == n,
                used == total(cells, i as int),
                used <= PAGE_SIZE,
            decreases n - i,
        {
            proof {
                lemma_auto_spec_u16_to_from_le_bytes();
                lemma_auto_spec_u64_to_from_le_bytes();
                lemma_total(cells, i + 1, n as int);
            }
            let (key_len, rest) = match self {
                Node::Leaf(leaf) => {
                    proof {
                        let e = leaf.entries@[i as int]@;
                        assert(cells[i as int] == leaf_cell(entry_views(leaf.entries@)[i as int]));
                    }
                    (leaf.entries[i].key.len(), leaf.entries[i].value.len())
                },
                Node::Internal(internal) => {
                    proof {
                        assert(cells[i as int] == internal_cell(
                            key_views(internal.keys@)[i as int],
                            internal.children@[i + 1],
                        ));
                    }
                    (internal.keys[i].len(), 6)
                },
            };
            assert(cells[i as int].len() == 4 + key_len + rest);
            if key_len > PAGE_SIZE || rest > PAGE_SIZE || used + 4 + key_len + rest > PAGE_SIZE {
                return None;
            }
            used = used + 4 + key_len + rest;
            i += 1;
        }
        Some(used)
    }

    /// Head, slots and cells have room on one page.
    pub fn fits(&self) -> (r: bool)
        ensures
            r == self@.fits(),
    {
        match self.cell_bytes() {
            Some(used) => {
                let n = self.key_count();
                proof {
                    assert(n == self@.cells().len());
                }
                n <= PAGE_SIZE && SLOTS + 2 * n + used <= PAGE_SIZE
            },
            None => false,
        }
    }

    /// The cells have room on one page; the slots may reach into them.
    pub fn packs(&self) -> (r: bool)
        ensures
            r == self@.packs(),
    {
        self.cell_bytes().is_some()
    }

    /// The cells have room on one page beside the head.
    pub fn headed(&self) -> (r: bool)
        ensures
            r == self@.headed(),
    {
        match self.cell_bytes() {
            Some(used) => SLOTS + used <= PAGE_SIZE,
            None => false,
        }
    }
}

/// The left half of a full node.
pub open spec fn left_half(v: NodeView, t: int, right_id: PageId) -> NodeView {
    match v {
        NodeView::Leaf(e, _) => NodeView::Leaf(e.take(t), Some(right_id)),
        NodeView::Internal(k, c) => NodeView::Internal(k.take(t - 1), c.take(t)),
    }
}

/// The separator between the halves of a full node.
pub open spec fn half_fence(v: NodeView, t: int) -> Seq<u8> {
    match v {
        NodeView::Leaf(e, _) => e[t].0,
        NodeView::Internal(k, _) => k[t - 1],
    }
}

/// The right half of a full node.
pub open spec fn right_half(v: NodeView, t: int) -> NodeView {
    match v {
        NodeView::Leaf(e, next) => NodeView::Leaf(e.skip(t), next),
        NodeView::Internal(k, c) => NodeView::Internal(k.skip(t), c.skip(t)),
    }
}

/// Splits a full node in two; the right half gets page `right_id`.
pub(crate) fn split_node(node: Node, t: usize, right_id: PageId) -> (r: (Node, Key, Node))
    requires
        2 <= t,
        node.spec_count() == 2 * t - 1,
        node@ matches NodeView::Internal(k, c) ==> c.len() == k.len() + 1,
    ensures
        r.0@ == left_half(node@, t as int, right_id),
        r.1@ == half_fence(node@, t as int),
        r.2@ == right_half(node@, t as int),
{
    match node {
        Node::Leaf(leaf) => {
            let mut left = leaf;
            let ghost e = entry_views(left.entries@);
            let right_entries = left.entries.split_off(t);
            let promoted_key = right_entries[0].key.clone();
            proof {
                assert(entry_views(left.entries@) =~= e.take(t as int));
                assert(entry_views(right_entries@) =~= e.skip(t as int));
                assert(entry_views(right_entries@)[0] == e[t as int]);
            }
            let right = Leaf { entries: right_entries, next: left.next };
            left.next = Some(right_id);
            (Node::Leaf(left), promoted_key, Node::Leaf(right))
        },
        Node::Internal(internal) => {
            let mut left = internal;
            let ghost k = key_views(left.keys@);
            let ghost k0 = left.keys@;
            let ghost c = left.children@;
            let mid = t - 1;
            let mut right_keys = left.keys.split_off(mid);
            let promoted_key = right_keys.remove(0);
            let right_children = left.children.split_off(mid + 1);
            proof {
                assert(promoted_key == k0[mid as int]);
                assert(key_views(left.keys@) =~= k.take(t - 1));
                assert(key_views(right_keys@) =~= k.skip(t as int)) by {
                    assert forall|i: int| 0 <= i < right_keys@.len() implies right_keys@[i] == k0[t + i] by {}
                }
                assert(left.children@ =~= c.take(t as int));
                assert(right_children@ =~= c.skip(t as int));
            }
            let right = Internal { keys: right_keys, children: right_children };
            (Node::Internal(left), promoted_key, Node::Internal(right))
        },
    }
}

/// How many entries or keys a node has.
pub open spec fn view_count(v: NodeView) -> nat {
    match v {
        NodeView::Leaf(e, _) => e.len(),
        NodeView::Internal(k, _) => k.len(),
    }
}

/// What stands on page `ids[i]`.
pub open spec fn node_at(ids: Seq<PageId>, p: Map<PageId, Seq<u8>>, i: int) -> NodeView {
    node_of(p[ids[i]])
}

/// What stands on the pages `ids[l]` to `ids[r]`, with the keys between them, as one node.
pub open spec fn joined_pages(
    keys: Seq<Seq<u8>>,
    ids: Seq<PageId>,
    p: Map<PageId, Seq<u8>>,
    l: int,
    r: int,
) -> NodeView
    decreases r - l,
{
    if r <= l {
        node_at(ids, p, l)
    } else {
        join_views(joined_pages(keys, ids, p, l, r - 1), keys[r - 1], node_at(ids, p, r))
    }
}

/// How many entries or keys stand on the pages `ids[l]` to `ids[r]`.
pub open spec fn page_load(ids: Seq<PageId>, p: Map<PageId, Seq<u8>>, l: int, r: int) -> nat
    decreases r - l + 1,
{
    if r < l {
        0
    } else {
        page_load(ids, p, l, r - 1) + view_count(node_at(ids, p, r))
    }
}

/// A node whose parts can be written: an inner node has one child more than keys, and all its
/// children have pages.
pub open spec fn dealable(v: NodeView) -> bool {
    match v {
        NodeView::Leaf(_, next) => next != Some(NULL_PAGE),
        NodeView::Internal(k, c) => {
            &&& c.len() == k.len() + 1
            &&& forall|i: int| 0 <= i < c.len() ==> #[trigger] c[i] != NULL_PAGE
        },
    }
}

/// The pages `ids[l]` to `ids[r]` are those of neighbours: all leaves or all inner nodes.
pub open spec fn neighbours(ids: Seq<PageId>, p: Map<PageId, Seq<u8>>, l: int, r: int) -> bool {
    &&& 0 <= l <= r < ids.len()
    &&& forall|i: int|
        l <= i <= r ==> {
            &&& #[trigger] ids[i] != NULL_PAGE
            &&& p.contains_key(ids[i])
            &&& legible(p[ids[i]])
            &&& dealable(node_at(ids, p, i))
            &&& same_kind(node_at(ids, p, l), node_at(ids, p, i))
        }
    &&& forall|i: int, j: int| l <= i < j <= r ==> #[trigger] ids[i] != #[trigger] ids[j]
}

pub(crate) proof fn lemma_joined_pages(
    keys: Seq<Seq<u8>>,
    ids: Seq<PageId>,
    p: Map<PageId, Seq<u8>>,
    l: int,
    r: int,
)
    requires
        neighbours(ids, p, l, r),
        r <= keys.len(),
    ensures
        dealable(joined_pages(keys, ids, p, l, r)),
        same_kind(joined_pages(keys, ids, p, l, r), node_at(ids, p, l)),
    decreases r - l,
{
    assert(ids[l] != NULL_PAGE);
    if l < r {
        lemma_joined_pages(keys, ids, p, l, r - 1);
        assert(ids[r] != NULL_PAGE);
    }
}

/// The parts of a node can be written.
pub(crate) proof fn lemma_part_dealable(v: NodeView, ids: Seq<PageId>, i: int)
    requires
        dealable(v),
        1 <= ids.len(),
        can_deal_view(v, ids.len() as int),
        forall|j: int| 0 <= j < ids.len() ==> #[trigger] ids[j] != NULL_PAGE,
        0 <= i < ids.len(),
    ensures
        part_view(v, ids, i).sound(),
{
    let n = ids.len() as int;
    match v {
        NodeView::Leaf(e, next) => {
            if i < n - 1 {
                assert(ids[i + 1] != NULL_PAGE);
            }
        },
        NodeView::Internal(k, c) => {
            let t = k.len() - (n - 1);
            lemma_begin(t, n, i);
            lemma_begin(t, n, i + 1);
            let a = begin(t, n, i) + i;
            let b = begin(t, n, i + 1) + i;
            assert(c.subrange(a, b + 1)[0] == c[a]);
            assert(c[a] != NULL_PAGE);
        },
    }
}

/// The `i`-th of `n` parts of a node, with no page numbers for the others.
pub open spec fn lone_part(v: NodeView, n: int, i: int) -> NodeView {
    part_view(v, Seq::new(n as nat, |j: int| 0u64), i)
}

/// The `i`-th of `n` parts of a node fits on a page, wherever the others go.
pub open spec fn part_fits(v: NodeView, n: int, i: int) -> bool {
    lone_part(v, n, i).fits()
}

/// The parts of a node that is dealt out to `n` pages can be written to them: the cells have room,
/// and the leaves whose first keys are read back fit.
pub open spec fn parts_hold(v: NodeView, n: int) -> bool {
    forall|i: int|
        0 <= i < n ==> (#[trigger] lone_part(v, n, i)).packs() && (v is Leaf && i > 0 ==> part_fits(v, n, i))
}

/// What room a part takes does not depend on where the others go.
pub(crate) proof fn lemma_parts_fit(v: NodeView, ids: Seq<PageId>, i: int)
    requires
        0 <= i < ids.len(),
    ensures
        part_view(v, ids, i).fits() == part_fits(v, ids.len() as int, i),
        part_view(v, ids, i).packs() == lone_part(v, ids.len() as int, i).packs(),
{
    let w = Seq::new(ids.len(), |j: int| 0u64);
    assert(part_view(v, ids, i).cells() =~= part_view(v, w, i).cells());
}

/// The pages that take up `n` parts in place of the pages `old_ids[l]` to `old_ids[r]`: these, as
/// many as are needed, and behind them `fresh` where there are more parts.
pub open spec fn part_ids(old_ids: Seq<PageId>, l: int, r: int, n: int, fresh: PageId) -> Seq<PageId> {
    Seq::new(
        n as nat,
        |i: int|
            if i <= r - l {
                old_ids[l + i]
            } else {
                fresh
            },
    )
}

/// Which pages there are when `n` parts have taken the place of the pages `ids[l]` to `ids[r]`: one
/// more where there are more parts, and without the last of them where there are fewer.
pub open spec fn part_pages(
    dom: Set<PageId>,
    ids: Seq<PageId>,
    l: int,
    r: int,
    n: int,
    fresh: PageId,
) -> Set<PageId> {
    if n > r - l + 1 {
        dom.insert(fresh)
    } else if n < r - l + 1 {
        dom.remove(ids[r])
    } else {
        dom
    }
}

} // verus!
