//! Trees whose nodes lie on pages.
use crate::bytetree::{
    begin, can_deal, headed, joined, lemma_begin, neat, packed, part, parts, roomy, split_at,
    split_root, ByteTree, Entry,
};
use crate::codec::{internal_cell, legible, lemma_head, lemma_round_trip, node_of, total, NodeView};
use crate::store::{NULL_PAGE, PAGE_SIZE, PageId};
use crate::tree::{cut, flat, lemma_flat_concat, lemma_flat_one, Tree};
use crate::window::{half_fence, left_half, right_half};
use vstd::bytes::{lemma_auto_spec_u16_to_from_le_bytes, lemma_auto_spec_u64_to_from_le_bytes};
use vstd::prelude::*;

verus! {

/// A tree with the number of each node's page; a leaf also has that of the next leaf.
pub enum PagedTree {
    Leaf(PageId, Seq<Entry>, Option<PageId>),
    Node(PageId, Seq<Seq<u8>>, Seq<PagedTree>),
}

/// The page numbers of a row of trees.
pub open spec fn row_ids(ch: Seq<PagedTree>) -> Seq<PageId> {
    Seq::new(ch.len(), |i: int| ch[i].id())
}

/// A row of trees without the page numbers.
pub open spec fn bare_row(ch: Seq<PagedTree>) -> Seq<ByteTree> {
    Seq::new(ch.len(), |i: int| ch[i].bare())
}

impl PagedTree {
    pub open spec fn id(self) -> PageId {
        match self {
            PagedTree::Leaf(id, _, _) => id,
            PagedTree::Node(id, _, _) => id,
        }
    }

    /// The tree without the page numbers.
    pub open spec fn bare(self) -> ByteTree
        decreases self,
    {
        match self {
            PagedTree::Leaf(_, e, _) => Tree::Leaf(e),
            PagedTree::Node(_, keys, ch) => Tree::Internal(
                keys,
                Seq::new(
                    ch.len(),
                    |i: int|
                        if 0 <= i < ch.len() {
                            ch[i].bare()
                        } else {
                            arbitrary()
                        },
                ),
            ),
        }
    }

    /// What stands on the page of the topmost node.
    pub open spec fn shape(self) -> NodeView {
        match self {
            PagedTree::Leaf(_, e, next) => NodeView::Leaf(e, next),
            PagedTree::Node(_, keys, ch) => NodeView::Internal(keys, row_ids(ch)),
        }
    }

    pub open spec fn kids(self) -> Seq<PagedTree> {
        match self {
            PagedTree::Leaf(_, _, _) => Seq::empty(),
            PagedTree::Node(_, _, ch) => ch,
        }
    }

    /// Page `x` is one of the tree's.
    pub open spec fn owns(self, x: PageId) -> bool
        decreases self,
    {
        ||| self.id() == x
        ||| self matches PagedTree::Node(_, _, ch) && exists|i: int|
            0 <= i < ch.len() && (#[trigger] ch[i]).owns(x)
    }

    /// No two nodes share a page.
    pub open spec fn distinct(self) -> bool
        decreases self,
    {
        self matches PagedTree::Node(id, _, ch) ==> {
            &&& forall|i: int| 0 <= i < ch.len() ==> (#[trigger] ch[i]).distinct() && !ch[i].owns(id)
            &&& forall|i: int, j: int, x: PageId|
                #![trigger ch[i].owns(x), ch[j].owns(x)]
                0 <= i < j < ch.len() ==> !(ch[i].owns(x) && ch[j].owns(x))
        }
    }

    /// The page of the topmost node holds it. Where its slots reach into its cells, the page has
    /// the bytes that writing it leaves, and cannot be read back.
    pub open spec fn on_page(self, pages: Map<PageId, Seq<u8>>) -> bool {
        &&& self.id() != NULL_PAGE
        &&& pages.contains_key(self.id())
        &&& pages[self.id()].len() == PAGE_SIZE
        &&& self.shape().sound()
        &&& self.shape().packs()
        &&& if self.shape().fits() {
            &&& legible(pages[self.id()])
            &&& node_of(pages[self.id()]) == self.shape()
        } else {
            pages[self.id()] == self.shape().image()
        }
    }

    /// The pages hold the tree.
    pub open spec fn stored(self, pages: Map<PageId, Seq<u8>>) -> bool
        decreases self,
    {
        &&& self.on_page(pages)
        &&& self matches PagedTree::Node(_, _, ch) ==> forall|i: int|
            0 <= i < ch.len() ==> (#[trigger] ch[i]).stored(pages)
    }

    /// The page of the leftmost leaf.
    pub open spec fn first(self) -> PageId
        decreases self,
    {
        match self {
            PagedTree::Leaf(id, _, _) => id,
            PagedTree::Node(id, _, ch) => if ch.len() > 0 {
                ch[0].first()
            } else {
                id
            },
        }
    }

    /// The leaves are linked from left to right, and the last one to `next`.
    pub open spec fn linked(self, next: Option<PageId>) -> bool
        decreases self,
    {
        match self {
            PagedTree::Leaf(_, _, n) => n == next,
            PagedTree::Node(_, _, ch) => {
                &&& ch.len() > 0
                &&& forall|i: int| 0 <= i < ch.len() ==> ch[i].linked(#[trigger] after(ch, i, next))
            },
        }
    }
}

/// The leaf behind tree `i` of a row; behind the last one it is `next`.
pub open spec fn after(ch: Seq<PagedTree>, i: int, next: Option<PageId>) -> Option<PageId> {
    if i + 1 < ch.len() {
        Some(ch[i + 1].first())
    } else {
        next
    }
}

pub open spec fn row_linked(ch: Seq<PagedTree>, next: Option<PageId>) -> bool {
    forall|i: int| 0 <= i < ch.len() ==> ch[i].linked(#[trigger] after(ch, i, next))
}

pub open spec fn row_stored(ch: Seq<PagedTree>, pages: Map<PageId, Seq<u8>>) -> bool {
    forall|i: int| 0 <= i < ch.len() ==> (#[trigger] ch[i]).stored(pages)
}

/// Page `x` is one of a tree of the row.
pub open spec fn row_owns(ch: Seq<PagedTree>, x: PageId) -> bool {
    exists|i: int| 0 <= i < ch.len() && (#[trigger] ch[i]).owns(x)
}

/// No two nodes of a row of trees share a page.
pub open spec fn apart(ch: Seq<PagedTree>) -> bool {
    &&& forall|i: int| 0 <= i < ch.len() ==> (#[trigger] ch[i]).distinct()
    &&& forall|i: int, j: int, x: PageId|
        #![trigger ch[i].owns(x), ch[j].owns(x)]
        0 <= i < j < ch.len() ==> !(ch[i].owns(x) && ch[j].owns(x))
}

pub proof fn lemma_bare(m: PagedTree)
    ensures
        m matches PagedTree::Node(_, keys, ch) ==> m.bare() == Tree::<Seq<u8>, Seq<u8>>::Internal(
            keys,
            bare_row(ch),
        ),
{
    if let PagedTree::Node(_, keys, ch) = m {
        assert(m.bare()->Internal_1 =~= bare_row(ch));
    }
}

/// A tree stays stored while its pages stay as they are.
pub proof fn lemma_frame(m: PagedTree, p: Map<PageId, Seq<u8>>, q: Map<PageId, Seq<u8>>)
    requires
        m.stored(p),
        forall|x: PageId| #[trigger] m.owns(x) ==> q.contains_key(x) && q[x] == p[x],
    ensures
        m.stored(q),
    decreases m,
{
    assert(m.owns(m.id()));
    if let PagedTree::Node(_, _, ch) = m {
        assert forall|i: int| 0 <= i < ch.len() implies (#[trigger] ch[i]).stored(q) by {
            assert forall|x: PageId| #[trigger] ch[i].owns(x) implies q.contains_key(x) && q[x]
                == p[x] by {
                assert(m.owns(x));
            }
            lemma_frame(ch[i], p, q);
        }
    }
}

/// The pages of a stored tree are there.
pub proof fn lemma_owned(m: PagedTree, p: Map<PageId, Seq<u8>>, x: PageId)
    requires
        m.stored(p),
        m.owns(x),
    ensures
        p.contains_key(x),
        x != NULL_PAGE,
    decreases m,
{
    if m.id() != x {
        if let PagedTree::Node(_, _, ch) = m {
            let i = choose|i: int| 0 <= i < ch.len() && (#[trigger] ch[i]).owns(x);
            lemma_owned(ch[i], p, x);
        }
    }
}

pub proof fn lemma_first(m: PagedTree)
    ensures
        m.owns(m.first()),
    decreases m,
{
    if let PagedTree::Node(_, _, ch) = m {
        if ch.len() > 0 {
            lemma_first(ch[0]);
        }
    }
}

/// The children of nodes `l` to `r` of a row.
pub open spec fn kid_row(ch: Seq<PagedTree>, l: int, r: int) -> Seq<PagedTree>
    decreases r - l,
{
    if r <= l {
        ch[l].kids()
    } else {
        kid_row(ch, l, r - 1) + ch[r].kids()
    }
}

/// What stands on the pages of two neighbours, as one node.
pub open spec fn join_views(a: NodeView, s: Seq<u8>, b: NodeView) -> NodeView {
    match (a, b) {
        (NodeView::Leaf(x, _), NodeView::Leaf(y, next)) => NodeView::Leaf(x + y, next),
        (NodeView::Internal(k1, c1), NodeView::Internal(k2, c2)) => NodeView::Internal(
            k1.push(s) + k2,
            c1 + c2,
        ),
        _ => arbitrary(),
    }
}

/// What stands on the pages of neighbours `l` to `r`, as one node.
pub open spec fn joined_views(keys: Seq<Seq<u8>>, ch: Seq<PagedTree>, l: int, r: int) -> NodeView
    decreases r - l,
{
    if r <= l {
        ch[l].shape()
    } else {
        join_views(joined_views(keys, ch, l, r - 1), keys[r - 1], ch[r].shape())
    }
}

/// All trees of a row are leaves, or none is.
pub open spec fn alike(ch: Seq<PagedTree>, leaves: bool) -> bool {
    forall|i: int| 0 <= i < ch.len() ==> ((#[trigger] ch[i]) is Leaf) == leaves
}

proof fn lemma_joined_leaves(keys: Seq<Seq<u8>>, ch: Seq<PagedTree>, l: int, r: int)
    requires
        0 <= l <= r < ch.len(),
        alike(ch, true),
    ensures
        joined(keys, bare_row(ch), l, r) matches Tree::Leaf(e) && joined_views(keys, ch, l, r)
            == NodeView::Leaf(
            e,
            match ch[r] {
                PagedTree::Leaf(_, _, next) => next,
                PagedTree::Node(_, _, _) => None,
            },
        ),
    decreases r - l,
{
    assert(ch[l] is Leaf && ch[r] is Leaf);
    if l < r {
        lemma_joined_leaves(keys, ch, l, r - 1);
    }
}

proof fn lemma_joined_nodes(keys: Seq<Seq<u8>>, ch: Seq<PagedTree>, l: int, r: int)
    requires
        0 <= l <= r < ch.len(),
        alike(ch, false),
    ensures
        joined(keys, bare_row(ch), l, r) matches Tree::Internal(k, c) && {
            &&& c == bare_row(kid_row(ch, l, r))
            &&& joined_views(keys, ch, l, r) == NodeView::Internal(k, row_ids(kid_row(ch, l, r)))
        },
    decreases r - l,
{
    assert(ch[l] is Node && ch[r] is Node);
    lemma_bare(ch[l]);
    lemma_bare(ch[r]);
    if l < r {
        lemma_joined_nodes(keys, ch, l, r - 1);
        let a = kid_row(ch, l, r - 1);
        let b = ch[r].kids();
        assert(bare_row(a) + bare_row(b) =~= bare_row(a + b));
        assert(row_ids(a) + row_ids(b) =~= row_ids(a + b));
    }
}

/// Part `i` of a node that is dealt out to the pages `ids`, as it stands on its page.
pub open spec fn part_view(v: NodeView, ids: Seq<PageId>, i: int) -> NodeView {
    let n = ids.len() as int;
    match v {
        NodeView::Leaf(e, next) => {
            let t = e.len() as int;
            NodeView::Leaf(
                e.subrange(begin(t, n, i), begin(t, n, i + 1)),
                if i < n - 1 {
                    Some(ids[i + 1])
                } else {
                    next
                },
            )
        },
        NodeView::Internal(k, c) => {
            let t = k.len() - (n - 1);
            let a = begin(t, n, i) + i;
            let b = begin(t, n, i + 1) + i;
            NodeView::Internal(k.subrange(a, b), c.subrange(a, b + 1))
        },
    }
}

/// Part `i` of a node with the children `kids`, on page `ids[i]`.
pub open spec fn paged_part(
    v: NodeView,
    kids: Seq<PagedTree>,
    ids: Seq<PageId>,
    i: int,
) -> PagedTree {
    match part_view(v, ids, i) {
        NodeView::Leaf(e, next) => PagedTree::Leaf(ids[i], e, next),
        NodeView::Internal(k, _) => {
            let n = ids.len() as int;
            let t = v->Internal_0.len() - (n - 1);
            PagedTree::Node(
                ids[i],
                k,
                kids.subrange(begin(t, n, i) + i, begin(t, n, i + 1) + i + 1),
            )
        },
    }
}

pub open spec fn paged_parts(
    v: NodeView,
    kids: Seq<PagedTree>,
    ids: Seq<PageId>,
) -> Seq<PagedTree> {
    Seq::new(ids.len(), |i: int| paged_part(v, kids, ids, i))
}

/// A row after nodes `l` to `r` were dealt out to the pages `ids`.
pub open spec fn dealt_row(
    keys: Seq<Seq<u8>>,
    ch: Seq<PagedTree>,
    l: int,
    r: int,
    ids: Seq<PageId>,
) -> Seq<PagedTree> {
    ch.take(l) + paged_parts(joined_views(keys, ch, l, r), window_kids(ch, l, r), ids) + ch.skip(r + 1)
}

pub open spec fn window_kids(ch: Seq<PagedTree>, l: int, r: int) -> Seq<PagedTree> {
    if ch[l] is Leaf {
        Seq::empty()
    } else {
        kid_row(ch, l, r)
    }
}

/// The pages that a window is dealt out to: those of its nodes, as many as are needed, and one
/// that is not in use where there are more parts than nodes.
pub open spec fn window_ids(
    ch: Seq<PagedTree>,
    l: int,
    r: int,
    ids: Seq<PageId>,
    p: Map<PageId, Seq<u8>>,
) -> bool {
    &&& 1 <= ids.len() <= r - l + 2
    &&& forall|i: int| 0 <= i < ids.len() && i <= r - l ==> #[trigger] ids[i] == ch[l + i].id()
    &&& ids.len() == r - l + 2 ==> !p.contains_key(ids[r - l + 1])
}

/// A window of a stored row.
pub open spec fn window(
    keys: Seq<Seq<u8>>,
    ch: Seq<PagedTree>,
    l: int,
    r: int,
    n: int,
    leaves: bool,
) -> bool {
    &&& 0 <= l <= r < ch.len()
    &&& 1 <= n
    &&& alike(ch, leaves)
    &&& can_deal(joined(keys, bare_row(ch), l, r), n)
    &&& joined(keys, bare_row(ch), l, r) matches Tree::Internal(k, c) ==> c.len() == k.len() + 1
}

/// The parts of a window, without page numbers and as they stand on their pages.
pub proof fn lemma_parts(
    keys: Seq<Seq<u8>>,
    ch: Seq<PagedTree>,
    l: int,
    r: int,
    ids: Seq<PageId>,
    leaves: bool,
)
    requires
        window(keys, ch, l, r, ids.len() as int, leaves),
    ensures
        bare_row(dealt_row(keys, ch, l, r, ids)) == bare_row(ch).take(l) + parts(
            joined(keys, bare_row(ch), l, r),
            ids.len() as int,
        ) + bare_row(ch).skip(r + 1),
        forall|i: int|
            0 <= i < ids.len() ==> (#[trigger] paged_parts(
                joined_views(keys, ch, l, r),
                window_kids(ch, l, r),
                ids,
            )[i]).shape() == part_view(joined_views(keys, ch, l, r), ids, i),
        row_ids(dealt_row(keys, ch, l, r, ids)) == row_ids(ch).take(l) + ids + row_ids(ch).skip(r + 1),
        joined_views(keys, ch, l, r) is Leaf == leaves,
        joined(keys, bare_row(ch), l, r) is Leaf == leaves,
        joined_views(keys, ch, l, r) matches NodeView::Leaf(e, _) ==> joined(
            keys,
            bare_row(ch),
            l,
            r,
        ) == Tree::<Seq<u8>, Seq<u8>>::Leaf(e),
        joined_views(keys, ch, l, r) matches NodeView::Internal(k, c) ==> {
            &&& joined(keys, bare_row(ch), l, r) matches Tree::Internal(k1, _) && k1 == k
            &&& c.len() == k.len() + 1
            &&& c == row_ids(kid_row(ch, l, r))
        },
{
    let v = joined_views(keys, ch, l, r);
    let m = joined(keys, bare_row(ch), l, r);
    let kids = window_kids(ch, l, r);
    let n = ids.len() as int;
    let ps = paged_parts(v, kids, ids);
    assert((ch[l] is Leaf) == leaves);
    if leaves {
        lemma_joined_leaves(keys, ch, l, r);
    } else {
        lemma_joined_nodes(keys, ch, l, r);
    }
    assert forall|i: int| 0 <= i < n implies (#[trigger] ps[i]).shape() == part_view(v, ids, i)
        && ps[i].bare() == part(m, n, i) && ps[i].id() == ids[i] by {
        lemma_bare(ps[i]);
        if let NodeView::Internal(k, c) = v {
            let t = k.len() - (n - 1);
            lemma_begin(t, n, i);
            lemma_begin(t, n, i + 1);
            let a = begin(t, n, i) + i;
            let b = begin(t, n, i + 1) + i;
            assert(row_ids(kids.subrange(a, b + 1)) =~= c.subrange(a, b + 1));
            assert(bare_row(kids.subrange(a, b + 1)) =~= bare_row(kids).subrange(a, b + 1));
        }
    }
    let d = dealt_row(keys, ch, l, r, ids);
    assert(bare_row(d) =~= bare_row(ch).take(l) + parts(m, n) + bare_row(ch).skip(r + 1)) by {
        assert forall|i: int| l <= i < l + n implies bare_row(d)[i] == part(m, n, i - l) by {
            assert(d[i] == ps[i - l]);
        }
    }
    assert(row_ids(d) =~= row_ids(ch).take(l) + ids + row_ids(ch).skip(r + 1)) by {
        assert forall|i: int| l <= i < l + n implies row_ids(d)[i] == ids[i - l] by {
            assert(d[i] == ps[i - l]);
        }
    }
}

/// The grandchildren of a window share no pages, neither with each other nor with its nodes.
proof fn lemma_kids_apart(ch: Seq<PagedTree>, l: int, r: int)
    requires
        0 <= l <= r < ch.len(),
        apart(ch),
        alike(ch, false),
    ensures
        apart(kid_row(ch, l, r)),
        forall|i: int, x: PageId|
            0 <= i < kid_row(ch, l, r).len() && #[trigger] kid_row(ch, l, r)[i].owns(x) ==> below_window(
                ch,
                l,
                r,
                x,
            ),
    decreases r - l,
{
    let b = ch[r].kids();
    assert(ch[r] is Node);
    assert(ch[r].distinct());
    assert forall|i: int, x: PageId| 0 <= i < b.len() && #[trigger] b[i].owns(x) implies ch[r].owns(x)
        && ch[r].id() != x by {
        assert(!b[i].owns(ch[r].id()));
    }
    if l < r {
        lemma_kids_apart(ch, l, r - 1);
        let a = kid_row(ch, l, r - 1);
        let c = a + b;
        assert(kid_row(ch, l, r) == c);
        assert forall|i: int, x: PageId| 0 <= i < c.len() && #[trigger] c[i].owns(x) implies below_window(
            ch,
            l,
            r,
            x,
        ) by {
            if i < a.len() {
                assert(c[i] == a[i]);
                assert(below_window(ch, l, r - 1, x));
                let j = choose|j: int| l <= j <= r - 1 && (#[trigger] ch[j]).owns(x) && ch[j].id() != x;
                assert(ch[j].owns(x));
            } else {
                assert(c[i] == b[i - a.len()]);
                assert(ch[r].owns(x));
            }
        }
        assert forall|i: int| 0 <= i < c.len() implies (#[trigger] c[i]).distinct() by {
            if i < a.len() {
                assert(c[i] == a[i]);
            } else {
                assert(c[i] == b[i - a.len()]);
            }
        }
        assert forall|i: int, j: int, x: PageId|
            #![trigger c[i].owns(x), c[j].owns(x)]
            0 <= i < j < c.len() implies !(c[i].owns(x) && c[j].owns(x)) by {
            if j < a.len() {
                assert(c[i] == a[i] && c[j] == a[j]);
            } else if i >= a.len() {
                assert(c[i] == b[i - a.len()] && c[j] == b[j - a.len()]);
            } else {
                assert(c[i] == a[i] && c[j] == b[j - a.len()]);
                if c[i].owns(x) && c[j].owns(x) {
                    assert(a[i].owns(x));
                    assert(below_window(ch, l, r - 1, x));
                    let y = choose|y: int|
                        l <= y <= r - 1 && (#[trigger] ch[y]).owns(x) && ch[y].id() != x;
                    assert(b[j - a.len()].owns(x));
                    assert(ch[r].owns(x));
                    assert(ch[y].owns(x));
                }
            }
        }
    } else {
        assert(kid_row(ch, l, r) == b);
        assert forall|i: int, x: PageId| 0 <= i < b.len() && #[trigger] b[i].owns(x) implies below_window(
            ch,
            l,
            r,
            x,
        ) by {
            assert(ch[r].owns(x));
        }
    }
}

/// Page `x` is that of a node below one of the nodes of the window.
pub open spec fn below_window(ch: Seq<PagedTree>, l: int, r: int, x: PageId) -> bool {
    exists|j: int| l <= j <= r && (#[trigger] ch[j]).owns(x) && ch[j].id() != x
}

/// What the parts of a window own.
proof fn lemma_part_owns(
    v: NodeView,
    kids: Seq<PagedTree>,
    ids: Seq<PageId>,
    i: int,
    x: PageId,
)
    requires
        0 <= i < ids.len(),
        v matches NodeView::Internal(k, c) ==> c.len() == k.len() + 1 && kids.len() == c.len() && ids.len()
            - 1 <= k.len(),
        paged_part(v, kids, ids, i).owns(x),
        x != ids[i],
    ensures
        v is Internal,
        ({
            let n = ids.len() as int;
            let t = v->Internal_0.len() - (n - 1);
            exists|j: int|
                begin(t, n, i) + i <= j < begin(t, n, i + 1) + i + 1 && 0 <= j < kids.len()
                    && (#[trigger] kids[j]).owns(x)
        }),
{
    let n = ids.len() as int;
    if let NodeView::Internal(k, c) = v {
        let t = k.len() - (n - 1);
        lemma_begin(t, n, i);
        lemma_begin(t, n, i + 1);
        let a = begin(t, n, i) + i;
        let b = begin(t, n, i + 1) + i + 1;
        let w = kids.subrange(a, b);
        let j = choose|j: int| 0 <= j < w.len() && (#[trigger] w[j]).owns(x);
        assert(kids[a + j].owns(x));
    }
}

/// Dealing a window out keeps the nodes on pages of their own, and takes no page but its own
/// and such as were not in use.
pub proof fn lemma_dealt_apart(
    keys: Seq<Seq<u8>>,
    ch: Seq<PagedTree>,
    l: int,
    r: int,
    ids: Seq<PageId>,
    leaves: bool,
    p: Map<PageId, Seq<u8>>,
)
    requires
        window(keys, ch, l, r, ids.len() as int, leaves),
        window_ids(ch, l, r, ids, p),
        apart(ch),
        row_stored(ch, p),
    ensures
        apart(dealt_row(keys, ch, l, r, ids)),
        forall|x: PageId| #[trigger] row_owns(dealt_row(keys, ch, l, r, ids), x) ==> row_owns(ch, x)
            || !p.contains_key(x),
{
    let v = joined_views(keys, ch, l, r);
    let kids = window_kids(ch, l, r);
    let n = ids.len() as int;
    let ps = paged_parts(v, kids, ids);
    let d = dealt_row(keys, ch, l, r, ids);
    assert((ch[l] is Leaf) == leaves);
    lemma_parts(keys, ch, l, r, ids, leaves);
    if !leaves {
        lemma_kids_apart(ch, l, r);
    }
    // A part owns its own page and pages below the window.
    assert forall|i: int, x: PageId| 0 <= i < n && #[trigger] ps[i].owns(x) implies x == ids[i]
        || below_window(ch, l, r, x) by {
        if x != ids[i] {
            lemma_part_owns(v, kids, ids, i, x);
            let t = v->Internal_0.len() - (n - 1);
            let j = choose|j: int|
                begin(t, n, i) + i <= j < begin(t, n, i + 1) + i + 1 && 0 <= j < kids.len()
                    && (#[trigger] kids[j]).owns(x);
            assert(kid_row(ch, l, r)[j].owns(x));
        }
    }
    // Pages below the window are in use, and are none of the window's own.
    assert forall|x: PageId| #[trigger] below_window(ch, l, r, x) implies p.contains_key(x)
        && forall|j: int| l <= j <= r ==> (#[trigger] ch[j]).id() != x by {
        let y = choose|y: int| l <= y <= r && (#[trigger] ch[y]).owns(x) && ch[y].id() != x;
        lemma_owned(ch[y], p, x);
        assert forall|j: int| l <= j <= r implies (#[trigger] ch[j]).id() != x by {
            if ch[j].id() == x {
                assert(ch[j].owns(x));
                assert(ch[y].owns(x));
            }
        }
    }
    assert forall|i: int| 0 <= i < n implies !below_window(ch, l, r, #[trigger] ids[i]) by {
        if i <= r - l {
            assert(ids[i] == ch[l + i].id());
        }
    }
    assert forall|i: int, j: int| 0 <= i < j < n implies #[trigger] ids[i] != #[trigger] ids[j] by {
        assert(ids[i] == ch[l + i].id());
        assert(ch[l + i].owns(ids[i]));
        lemma_owned(ch[l + i], p, ids[i]);
        if j <= r - l {
            assert(ids[j] == ch[l + j].id());
            assert(ch[l + j].owns(ids[j]));
        }
    }
    assert forall|i: int| 0 <= i < n implies (#[trigger] ps[i]).distinct() by {
        if let NodeView::Internal(k, c) = v {
            let t = k.len() - (n - 1);
            lemma_begin(t, n, i);
            lemma_begin(t, n, i + 1);
            let a = begin(t, n, i) + i;
            let b = begin(t, n, i + 1) + i + 1;
            let w = kids.subrange(a, b);
            assert forall|j: int| 0 <= j < w.len() implies (#[trigger] w[j]).distinct() && !w[j].owns(
                ids[i],
            ) by {
                assert(w[j] == kids[a + j]);
                if kid_row(ch, l, r)[a + j].owns(ids[i]) {
                    assert(below_window(ch, l, r, ids[i]));
                }
            }
            assert forall|y: int, z: int, x: PageId|
                #![trigger w[y].owns(x), w[z].owns(x)]
                0 <= y < z < w.len() implies !(w[y].owns(x) && w[z].owns(x)) by {
                assert(w[y] == kids[a + y] && w[z] == kids[a + z]);
                assert(!(kids[a + y].owns(x) && kids[a + z].owns(x)));
            }
        }
    }
    assert forall|i: int, j: int, x: PageId|
        #![trigger ps[i].owns(x), ps[j].owns(x)]
        0 <= i < j < n implies !(ps[i].owns(x) && ps[j].owns(x)) by {
        if ps[i].owns(x) && ps[j].owns(x) {
            assert(ids[i] != ids[j]);
            assert(x != ids[i]);
            assert(x != ids[j]);
            lemma_part_owns(v, kids, ids, i, x);
            lemma_part_owns(v, kids, ids, j, x);
            let t = v->Internal_0.len() - (n - 1);
            let y = choose|y: int|
                begin(t, n, i) + i <= y < begin(t, n, i + 1) + i + 1 && 0 <= y < kids.len()
                    && (#[trigger] kids[y]).owns(x);
            let z = choose|z: int|
                begin(t, n, j) + j <= z < begin(t, n, j + 1) + j + 1 && 0 <= z < kids.len()
                    && (#[trigger] kids[z]).owns(x);
            lemma_begin_mono(t, n, i + 1, j);
            assert(y < z);
            assert(!(kids[y].owns(x) && kids[z].owns(x)));
        }
    }
    // A part and a tree outside the window.
    assert forall|i: int, j: int, x: PageId|
        0 <= i < n && 0 <= j < ch.len() && !(l <= j <= r) && #[trigger] ps[i].owns(x)
            && #[trigger] ch[j].owns(x) implies false by {
        lemma_owned(ch[j], p, x);
        if x == ids[i] {
            assert(ids[i] == ch[l + i].id());
            assert(ch[l + i].owns(x));
        } else {
            let y = choose|y: int| l <= y <= r && (#[trigger] ch[y]).owns(x) && ch[y].id() != x;
            assert(ch[y].owns(x));
        }
    }
    assert forall|i: int| 0 <= i < d.len() implies (#[trigger] d[i]).distinct() by {
        if i < l {
            assert(d[i] == ch[i]);
        } else if i < l + n {
            assert(d[i] == ps[i - l]);
        } else {
            assert(d[i] == ch[i - l - n + r + 1]);
        }
    }
    assert forall|i: int, j: int, x: PageId|
        #![trigger d[i].owns(x), d[j].owns(x)]
        0 <= i < j < d.len() implies !(d[i].owns(x) && d[j].owns(x)) by {
        if d[i].owns(x) && d[j].owns(x) {
            let a = if i < l {
                i
            } else {
                i - l - n + r + 1
            };
            let b = if j < l {
                j
            } else {
                j - l - n + r + 1
            };
            if l <= i < l + n {
                assert(d[i] == ps[i - l]);
                if j < l + n {
                    assert(d[j] == ps[j - l]);
                } else {
                    assert(d[j] == ch[b]);
                    assert(ps[i - l].owns(x) && ch[b].owns(x));
                }
            } else {
                assert(d[i] == ch[a]);
                if l <= j < l + n {
                    assert(d[j] == ps[j - l]);
                    assert(ps[j - l].owns(x) && ch[a].owns(x));
                } else {
                    assert(d[j] == ch[b]);
                }
            }
        }
    }
    assert forall|x: PageId| #[trigger] row_owns(d, x) implies row_owns(ch, x) || !p.contains_key(x) by {
        let i = choose|i: int| 0 <= i < d.len() && (#[trigger] d[i]).owns(x);
        if i < l {
            assert(d[i] == ch[i]);
        } else if i < l + n {
            let j = i - l;
            assert(d[i] == ps[j]);
            if x == ids[j] {
                if j <= r - l {
                    assert(ids[j] == ch[l + j].id());
                    assert(ch[l + j].owns(x));
                }
            } else {
                assert(below_window(ch, l, r, x));
                let y = choose|y: int| l <= y <= r && (#[trigger] ch[y]).owns(x) && ch[y].id() != x;
                assert(ch[y].owns(x));
            }
        } else {
            let y = i - l - n + r + 1;
            assert(d[i] == ch[y]);
            assert(ch[y].owns(x));
        }
    }
}

proof fn lemma_begin_mono(t: int, n: int, i: int, j: int)
    requires
        0 <= t,
        1 <= n,
        0 <= i <= j <= n,
    ensures
        begin(t, n, i) <= begin(t, n, j),
    decreases j - i,
{
    if i < j {
        lemma_begin_mono(t, n, i, j - 1);
        lemma_begin(t, n, j - 1);
    }
}

/// The grandchildren of a window are linked like its nodes.
proof fn lemma_kids_linked(ch: Seq<PagedTree>, l: int, r: int, next: Option<PageId>)
    requires
        0 <= l <= r < ch.len(),
        row_linked(ch, next),
        alike(ch, false),
    ensures
        row_linked(kid_row(ch, l, r), after(ch, r, next)),
        kid_row(ch, l, r).len() > 0,
        kid_row(ch, l, r)[0].first() == ch[l].first(),
    decreases r - l,
{
    let b = ch[r].kids();
    assert(ch[r] is Node);
    assert(ch[r].linked(after(ch, r, next)));
    assert(row_linked(b, after(ch, r, next)));
    assert(b[0].first() == ch[r].first());
    if l < r {
        lemma_kids_linked(ch, l, r - 1, next);
        let a = kid_row(ch, l, r - 1);
        let c = a + b;
        let z = after(ch, r, next);
        assert forall|i: int| 0 <= i < c.len() implies c[i].linked(#[trigger] after(c, i, z)) by {
            if i < a.len() {
                assert(c[i] == a[i]);
                assert(a[i].linked(after(a, i, after(ch, r - 1, next))));
                if i + 1 < a.len() {
                    assert(c[i + 1] == a[i + 1]);
                } else {
                    assert(c[i + 1] == b[0]);
                }
            } else {
                let j = i - a.len();
                assert(c[i] == b[j]);
                assert(b[j].linked(after(b, j, z)));
                if j + 1 < b.len() {
                    assert(c[i + 1] == b[j + 1]);
                }
            }
        }
        assert(c[0] == a[0]);
    }
}

/// Dealing a window out keeps the leaves linked.
pub proof fn lemma_dealt_linked(
    keys: Seq<Seq<u8>>,
    ch: Seq<PagedTree>,
    l: int,
    r: int,
    ids: Seq<PageId>,
    leaves: bool,
    p: Map<PageId, Seq<u8>>,
    next: Option<PageId>,
)
    requires
        window(keys, ch, l, r, ids.len() as int, leaves),
        window_ids(ch, l, r, ids, p),
        row_linked(ch, next),
    ensures
        row_linked(dealt_row(keys, ch, l, r, ids), next),
        dealt_row(keys, ch, l, r, ids)[0].first() == ch[0].first(),
{
    let v = joined_views(keys, ch, l, r);
    let kids = window_kids(ch, l, r);
    let n = ids.len() as int;
    let ps = paged_parts(v, kids, ids);
    let d = dealt_row(keys, ch, l, r, ids);
    let z = after(ch, r, next);
    assert((ch[l] is Leaf) == leaves);
    assert((ch[r] is Leaf) == leaves);
    assert(ch[r].linked(z));
    lemma_parts(keys, ch, l, r, ids, leaves);
    assert(ids[0] == ch[l + 0].id());
    if leaves {
        lemma_joined_leaves(keys, ch, l, r);
        assert forall|i: int| 0 <= i < n implies ps[i].linked(#[trigger] after(ps, i, z))
            && ps[i].first() == ids[i] by {
            if i < n - 1 {
                assert(ps[i + 1].first() == ids[i + 1]);
            }
        }
        assert(ps[0].first() == ch[l].first());
    } else {
        lemma_kids_linked(ch, l, r, next);
        let k = v->Internal_0;
        let t = k.len() - (n - 1);
        assert forall|i: int| 0 <= i < n implies ps[i].linked(#[trigger] after(ps, i, z))
            && ps[i].first() == kids[begin(t, n, i) + i].first() by {
            lemma_begin(t, n, i);
            lemma_begin(t, n, i + 1);
            let a = begin(t, n, i) + i;
            let b = begin(t, n, i + 1) + i + 1;
            let w = kids.subrange(a, b);
            assert(w[0] == kids[a]);
            if i < n - 1 {
                lemma_begin(t, n, i + 2);
                let b2 = begin(t, n, i + 2) + i + 2;
                let w2 = kids.subrange(b, b2);
                assert(w2[0] == kids[b]);
                assert(ps[i + 1].kids() == w2);
                assert(ps[i + 1].first() == kids[b].first());
            } else {
                assert(b == kids.len());
            }
            let q = after(ps, i, z);
            assert forall|j: int| 0 <= j < w.len() implies w[j].linked(#[trigger] after(w, j, q)) by {
                assert(w[j] == kids[a + j]);
                assert(kids[a + j].linked(after(kids, a + j, z)));
                if j + 1 < w.len() {
                    assert(w[j + 1] == kids[a + j + 1]);
                }
            }
        }
        lemma_begin(t, n, 0);
        assert(ps[0].first() == ch[l].first());
    }
    assert forall|i: int| 0 <= i < d.len() implies d[i].linked(#[trigger] after(d, i, next)) by {
        if i < l {
            assert(d[i] == ch[i]);
            assert(ch[i].linked(after(ch, i, next)));
            if i + 1 < l {
                assert(d[i + 1] == ch[i + 1]);
            } else {
                assert(d[i + 1] == ps[0]);
            }
        } else if i < l + n {
            assert(d[i] == ps[i - l]);
            assert(ps[i - l].linked(after(ps, i - l, z)));
            if i + 1 < l + n {
                assert(d[i + 1] == ps[i - l + 1]);
            } else if r + 1 < ch.len() {
                assert(d[i + 1] == ch[r + 1]);
            }
        } else {
            let x = i - l - n + r + 1;
            assert(d[i] == ch[x]);
            assert(ch[x].linked(after(ch, x, next)));
            if x + 1 < ch.len() {
                assert(d[i + 1] == ch[x + 1]);
            }
        }
    }
    if l > 0 {
        assert(d[0] == ch[0]);
    } else {
        assert(d[0] == ps[0]);
    }
}

/// What is not a page of a window's own nodes is as it was.
pub open spec fn spares_window(
    ch: Seq<PagedTree>,
    l: int,
    r: int,
    p: Map<PageId, Seq<u8>>,
    q: Map<PageId, Seq<u8>>,
) -> bool {
    forall|x: PageId| #[trigger]
        p.contains_key(x) && (forall|j: int| l <= j <= r ==> (#[trigger] ch[j]).id() != x)
            ==> q.contains_key(x) && q[x] == p[x]
}

/// Once its parts are written, a window that was dealt out is stored.
pub proof fn lemma_dealt_stored(
    keys: Seq<Seq<u8>>,
    ch: Seq<PagedTree>,
    l: int,
    r: int,
    ids: Seq<PageId>,
    leaves: bool,
    p: Map<PageId, Seq<u8>>,
    q: Map<PageId, Seq<u8>>,
)
    requires
        window(keys, ch, l, r, ids.len() as int, leaves),
        window_ids(ch, l, r, ids, p),
        apart(ch),
        row_stored(ch, p),
        spares_window(ch, l, r, p, q),
        forall|i: int|
            0 <= i < ids.len() ==> (#[trigger] paged_parts(
                joined_views(keys, ch, l, r),
                window_kids(ch, l, r),
                ids,
            )[i]).on_page(q),
    ensures
        row_stored(dealt_row(keys, ch, l, r, ids), q),
{
    let v = joined_views(keys, ch, l, r);
    let kids = window_kids(ch, l, r);
    let n = ids.len() as int;
    let ps = paged_parts(v, kids, ids);
    let d = dealt_row(keys, ch, l, r, ids);
    assert((ch[l] is Leaf) == leaves);
    lemma_parts(keys, ch, l, r, ids, leaves);
    if !leaves {
        lemma_kids_apart(ch, l, r);
        lemma_kids_stored(ch, l, r, p);
        assert forall|j: int| 0 <= j < kids.len() implies (#[trigger] kids[j]).stored(q) by {
            assert forall|x: PageId| #[trigger] kids[j].owns(x) implies q.contains_key(x) && q[x]
                == p[x] by {
                lemma_owned(kids[j], p, x);
                assert(kid_row(ch, l, r)[j].owns(x));
                assert(below_window(ch, l, r, x));
                let y = choose|y: int| l <= y <= r && (#[trigger] ch[y]).owns(x) && ch[y].id() != x;
                assert forall|z: int| l <= z <= r implies (#[trigger] ch[z]).id() != x by {
                    if ch[z].id() == x {
                        assert(ch[z].owns(x));
                        assert(ch[y].owns(x));
                    }
                }
            }
            lemma_frame(kids[j], p, q);
        }
    }
    assert forall|i: int| 0 <= i < n implies (#[trigger] ps[i]).stored(q) by {
        assert(ps[i].on_page(q));
        if let NodeView::Internal(k, c) = v {
            let t = k.len() - (n - 1);
            lemma_begin(t, n, i);
            lemma_begin(t, n, i + 1);
            let a = begin(t, n, i) + i;
            let b = begin(t, n, i + 1) + i + 1;
            let w = kids.subrange(a, b);
            assert forall|j: int| 0 <= j < w.len() implies (#[trigger] w[j]).stored(q) by {
                assert(w[j] == kids[a + j]);
            }
        }
    }
    assert forall|i: int| 0 <= i < d.len() implies (#[trigger] d[i]).stored(q) by {
        if l <= i < l + n {
            assert(d[i] == ps[i - l]);
        } else {
            let y = if i < l {
                i
            } else {
                i - l - n + r + 1
            };
            assert(d[i] == ch[y]);
            assert forall|x: PageId| #[trigger] ch[y].owns(x) implies q.contains_key(x) && q[x] == p[x] by {
                lemma_owned(ch[y], p, x);
                assert forall|z: int| l <= z <= r implies (#[trigger] ch[z]).id() != x by {
                    if ch[z].id() == x {
                        assert(ch[z].owns(x));
                        assert(ch[y].owns(x));
                    }
                }
            }
            lemma_frame(ch[y], p, q);
        }
    }
}

pub proof fn lemma_kids_stored(ch: Seq<PagedTree>, l: int, r: int, p: Map<PageId, Seq<u8>>)
    requires
        0 <= l <= r < ch.len(),
        row_stored(ch, p),
        alike(ch, false),
    ensures
        row_stored(kid_row(ch, l, r), p),
    decreases r - l,
{
    let b = ch[r].kids();
    assert(ch[r] is Node);
    assert(ch[r].stored(p));
    assert(row_stored(b, p));
    if l < r {
        lemma_kids_stored(ch, l, r - 1, p);
        let a = kid_row(ch, l, r - 1);
        let c = a + b;
        assert forall|i: int| 0 <= i < c.len() implies (#[trigger] c[i]).stored(p) by {
            if i < a.len() {
                assert(c[i] == a[i]);
            } else {
                assert(c[i] == b[i - a.len()]);
            }
        }
    }
}

proof fn lemma_cell_totals(a: Seq<Seq<u8>>, b: Seq<Seq<u8>>, n: int)
    requires
        a.len() == b.len(),
        0 <= n <= a.len(),
        forall|i: int| 0 <= i < a.len() ==> (#[trigger] a[i]).len() == b[i].len(),
    ensures
        total(a, n) == total(b, n),
    decreases n,
{
    if n > 0 {
        lemma_cell_totals(a, b, n - 1);
        assert(a[n - 1].len() == b[n - 1].len());
    }
}

/// The same node with or without page numbers.
pub open spec fn views_tree(v: NodeView, m: ByteTree) -> bool {
    match (v, m) {
        (NodeView::Leaf(e, _), Tree::Leaf(x)) => e == x,
        (NodeView::Internal(k, _), Tree::Internal(x, _)) => k == x,
        _ => false,
    }
}

/// Writing a node to its page puts it there.
pub proof fn lemma_written(m: PagedTree, q: Map<PageId, Seq<u8>>)
    requires
        m.id() != NULL_PAGE,
        q.contains_key(m.id()),
        q[m.id()] == m.shape().image(),
        m.shape().sound(),
        m.shape().packs(),
    ensures
        m.on_page(q),
{
    lemma_head(m.shape());
    if m.shape().fits() {
        lemma_round_trip(m.shape());
    }
}

/// Whether a node fits on a page does not rest on page numbers.
pub proof fn lemma_roomy(v: NodeView, m: ByteTree)
    requires
        views_tree(v, m),
    ensures
        roomy(m) == v.fits(),
        packed(m) == v.packs(),
        headed(m) == v.headed(),
{
    if let NodeView::Internal(k, c) = v {
        lemma_auto_spec_u16_to_from_le_bytes();
        lemma_auto_spec_u64_to_from_le_bytes();
        let z = Seq::new(k.len() + 1, |i: int| 0u64);
        let a = v.cells();
        let b = NodeView::Internal(k, z).cells();
        assert forall|i: int| 0 <= i < a.len() implies (#[trigger] a[i]).len() == b[i].len() by {
            assert(a[i] == internal_cell(k[i], c[i + 1]));
            assert(b[i] == internal_cell(k[i], z[i + 1]));
        }
        lemma_cell_totals(a, b, a.len() as int);
    }
}

/// Dealing a window out keeps the first leaf where it is.
pub proof fn lemma_dealt_first(
    keys: Seq<Seq<u8>>,
    ch: Seq<PagedTree>,
    l: int,
    r: int,
    ids: Seq<PageId>,
    leaves: bool,
    p: Map<PageId, Seq<u8>>,
)
    requires
        window(keys, ch, l, r, ids.len() as int, leaves),
        window_ids(ch, l, r, ids, p),
        leaves || (forall|i: int| 0 <= i < ch.len() ==> (#[trigger] ch[i]).kids().len() > 0),
    ensures
        dealt_row(keys, ch, l, r, ids)[0].first() == ch[0].first(),
{
    let v = joined_views(keys, ch, l, r);
    let kids = window_kids(ch, l, r);
    let n = ids.len() as int;
    let ps = paged_parts(v, kids, ids);
    let d = dealt_row(keys, ch, l, r, ids);
    assert((ch[l] is Leaf) == leaves);
    lemma_parts(keys, ch, l, r, ids, leaves);
    assert(ids[0] == ch[l + 0].id());
    if l > 0 {
        assert(d[0] == ch[0]);
    } else {
        assert(d[0] == ps[0]);
        if !leaves {
            lemma_kids_first(ch, l, r);
            let t = v->Internal_0.len() - (n - 1);
            lemma_begin(t, n, 0);
            lemma_begin(t, n, 1);
            let w = kids.subrange(begin(t, n, 0) + 0, begin(t, n, 1) + 0 + 1);
            assert(w[0] == kids[0]);
            assert(ps[0].kids() == w);
        }
    }
}

proof fn lemma_kids_first(ch: Seq<PagedTree>, l: int, r: int)
    requires
        0 <= l <= r < ch.len(),
        alike(ch, false),
        forall|i: int| 0 <= i < ch.len() ==> (#[trigger] ch[i]).kids().len() > 0,
    ensures
        kid_row(ch, l, r).len() > 0,
        kid_row(ch, l, r)[0].first() == ch[l].first(),
    decreases r - l,
{
    assert(ch[l] is Node);
    if l < r {
        lemma_kids_first(ch, l, r - 1);
    }
}

/// A row of trees was rebuilt on its own pages and on pages that were not in use; the pages of
/// others are as they were.
pub open spec fn rebuilt(
    ch: Seq<PagedTree>,
    ch2: Seq<PagedTree>,
    p: Map<PageId, Seq<u8>>,
    q: Map<PageId, Seq<u8>>,
) -> bool {
    &&& row_stored(ch2, q)
    &&& apart(ch2)
    &&& ch2.len() > 0
    &&& ch2[0].first() == ch[0].first()
    &&& forall|next: Option<PageId>| #[trigger] row_linked(ch, next) ==> row_linked(ch2, next)
    &&& forall|x: PageId| #[trigger] row_owns(ch2, x) ==> row_owns(ch, x) || !p.contains_key(x)
    &&& forall|x: PageId| #[trigger]
        p.contains_key(x) && !row_owns(ch, x) ==> q.contains_key(x) && q[x] == p[x]
}

/// A tree was rebuilt in place.
pub open spec fn rebuilt_tree(
    m: PagedTree,
    m2: PagedTree,
    p: Map<PageId, Seq<u8>>,
    q: Map<PageId, Seq<u8>>,
) -> bool {
    &&& m2.id() == m.id()
    &&& m2.stored(q)
    &&& m2.distinct()
    &&& m2.first() == m.first()
    &&& forall|next: Option<PageId>| #[trigger] m.linked(next) ==> m2.linked(next)
    &&& forall|x: PageId| #[trigger] m2.owns(x) ==> m.owns(x) || !p.contains_key(x)
    &&& forall|x: PageId| #[trigger] p.contains_key(x) && !m.owns(x) ==> q.contains_key(x) && q[x] == p[x]
}

/// Rebuilding twice is rebuilding.
pub proof fn lemma_rebuilt_twice(
    a: PagedTree,
    b: PagedTree,
    c: PagedTree,
    p: Map<PageId, Seq<u8>>,
    q: Map<PageId, Seq<u8>>,
    r: Map<PageId, Seq<u8>>,
)
    requires
        rebuilt_tree(a, b, p, q),
        rebuilt_tree(b, c, q, r),
    ensures
        rebuilt_tree(a, c, p, r),
{
    assert forall|next: Option<PageId>| #[trigger] a.linked(next) implies c.linked(next) by {
        assert(b.linked(next));
    }
    assert forall|x: PageId| #[trigger] c.owns(x) implies a.owns(x) || !p.contains_key(x) by {
        if b.owns(x) {
        } else {
            assert(!q.contains_key(x));
        }
    }
    assert forall|x: PageId| #[trigger] p.contains_key(x) && !a.owns(x) implies r.contains_key(x) && r[x]
        == p[x] by {
        assert(!b.owns(x));
        assert(q.contains_key(x));
    }
}

/// A node whose children were rebuilt, once its own page is written.
pub proof fn lemma_rebuilt_node(
    id: PageId,
    keys: Seq<Seq<u8>>,
    ch: Seq<PagedTree>,
    k2: Seq<Seq<u8>>,
    ch2: Seq<PagedTree>,
    p: Map<PageId, Seq<u8>>,
    p1: Map<PageId, Seq<u8>>,
    q: Map<PageId, Seq<u8>>,
)
    requires
        PagedTree::Node(id, keys, ch).stored(p),
        PagedTree::Node(id, keys, ch).distinct(),
        ch.len() > 0,
        rebuilt(ch, ch2, p, p1),
        ch2.len() == k2.len() + 1,
        q == p1.insert(id, NodeView::Internal(k2, row_ids(ch2)).image()),
        NodeView::Internal(k2, row_ids(ch2)).packs(),
    ensures
        rebuilt_tree(PagedTree::Node(id, keys, ch), PagedTree::Node(id, k2, ch2), p, q),
{
    let m = PagedTree::Node(id, keys, ch);
    let m2 = PagedTree::Node(id, k2, ch2);
    let v = NodeView::Internal(k2, row_ids(ch2));
    assert(p.contains_key(id));
    assert(!row_owns(ch, id)) by {
        if row_owns(ch, id) {
            let i = choose|i: int| 0 <= i < ch.len() && (#[trigger] ch[i]).owns(id);
            assert(!ch[i].owns(id));
        }
    }
    assert(!row_owns(ch2, id));
    assert(ch2[0].stored(p1));
    assert(row_ids(ch2)[0] == ch2[0].id());
    assert(v.sound());
    lemma_written(m2, q);
    assert forall|i: int| 0 <= i < ch2.len() implies (#[trigger] ch2[i]).stored(q) && ch2[i].distinct()
        && !ch2[i].owns(id) by {
        assert(ch2[i].stored(p1));
        assert forall|x: PageId| #[trigger] ch2[i].owns(x) implies q.contains_key(x) && q[x] == p1[x] by {
            lemma_owned(ch2[i], p1, x);
            assert(row_owns(ch2, x));
        }
        lemma_frame(ch2[i], p1, q);
        if ch2[i].owns(id) {
            assert(row_owns(ch2, id));
        }
    }
    assert(m2.on_page(q));
    assert forall|next: Option<PageId>| #[trigger] m.linked(next) implies m2.linked(next) by {
        assert(row_linked(ch, next)) by {
            assert forall|i: int| 0 <= i < ch.len() implies ch[i].linked(#[trigger] after(ch, i, next)) by {}
        }
        assert(row_linked(ch2, next));
    }
    assert forall|x: PageId| #[trigger] m2.owns(x) implies m.owns(x) || !p.contains_key(x) by {
        if x != id {
            let i = choose|i: int| 0 <= i < ch2.len() && (#[trigger] ch2[i]).owns(x);
            assert(row_owns(ch2, x));
            if row_owns(ch, x) {
                let j = choose|j: int| 0 <= j < ch.len() && (#[trigger] ch[j]).owns(x);
                assert(ch[j].owns(x));
            }
        }
    }
    assert forall|x: PageId| #[trigger] p.contains_key(x) && !m.owns(x) implies q.contains_key(x) && q[x]
        == p[x] by {
        if row_owns(ch, x) {
            let j = choose|j: int| 0 <= j < ch.len() && (#[trigger] ch[j]).owns(x);
            assert(m.owns(x));
        }
    }
}

/// A node one of whose children was rebuilt.
pub proof fn lemma_rebuilt_child(
    id: PageId,
    keys: Seq<Seq<u8>>,
    ch: Seq<PagedTree>,
    ci: int,
    c: PagedTree,
    p: Map<PageId, Seq<u8>>,
    q: Map<PageId, Seq<u8>>,
)
    requires
        PagedTree::Node(id, keys, ch).stored(p),
        PagedTree::Node(id, keys, ch).distinct(),
        0 <= ci < ch.len(),
        rebuilt_tree(ch[ci], c, p, q),
    ensures
        rebuilt_tree(
            PagedTree::Node(id, keys, ch),
            PagedTree::Node(id, keys, ch.update(ci, c)),
            p,
            q,
        ),
        bare_row(ch.update(ci, c)) == bare_row(ch).update(ci, c.bare()),
{
    let m = PagedTree::Node(id, keys, ch);
    let d = ch.update(ci, c);
    let m2 = PagedTree::Node(id, keys, d);
    assert(bare_row(d) =~= bare_row(ch).update(ci, c.bare()));
    assert(row_ids(d) =~= row_ids(ch));
    assert(m.owns(id));
    assert(p.contains_key(id));
    assert(!ch[ci].owns(id));
    assert(m2.on_page(q));
    assert forall|i: int| 0 <= i < d.len() implies (#[trigger] d[i]).stored(q) && d[i].distinct()
        && !d[i].owns(id) by {
        if i != ci {
            assert(d[i] == ch[i]);
            assert(ch[i].stored(p));
            assert forall|x: PageId| #[trigger] ch[i].owns(x) implies q.contains_key(x) && q[x] == p[x] by {
                lemma_owned(ch[i], p, x);
                assert(!(ch[i].owns(x) && ch[ci].owns(x)));
            }
            lemma_frame(ch[i], p, q);
        }
    }
    assert forall|i: int, j: int, x: PageId|
        #![trigger d[i].owns(x), d[j].owns(x)]
        0 <= i < j < d.len() implies !(d[i].owns(x) && d[j].owns(x)) by {
        if d[i].owns(x) && d[j].owns(x) {
            if i == ci {
                assert(d[j] == ch[j]);
                lemma_owned(ch[j], p, x);
                assert(ch[ci].owns(x));
            } else if j == ci {
                assert(d[i] == ch[i]);
                lemma_owned(ch[i], p, x);
                assert(ch[ci].owns(x));
            } else {
                assert(d[i] == ch[i] && d[j] == ch[j]);
            }
        }
    }
    assert forall|next: Option<PageId>| #[trigger] m.linked(next) implies m2.linked(next) by {
        assert forall|i: int| 0 <= i < d.len() implies d[i].linked(#[trigger] after(d, i, next)) by {
            assert(ch[i].linked(after(ch, i, next)));
            if i + 1 < d.len() {
                assert(d[i + 1].first() == ch[i + 1].first());
            }
            assert(after(d, i, next) == after(ch, i, next));
        }
    }
    assert forall|x: PageId| #[trigger] m2.owns(x) implies m.owns(x) || !p.contains_key(x) by {
        if x != id {
            let i = choose|i: int| 0 <= i < d.len() && (#[trigger] d[i]).owns(x);
            if i == ci {
                if ch[ci].owns(x) {
                    assert(m.owns(x));
                }
            } else {
                assert(ch[i].owns(x));
            }
        }
    }
    assert forall|x: PageId| #[trigger] p.contains_key(x) && !m.owns(x) implies q.contains_key(x) && q[x]
        == p[x] by {
        assert(!ch[ci].owns(x));
    }
}

/// The left half of a full tree.
pub open spec fn left_tree(m: PagedTree, t: int, right_id: PageId) -> PagedTree {
    match m {
        PagedTree::Leaf(id, e, _) => PagedTree::Leaf(id, e.take(t), Some(right_id)),
        PagedTree::Node(id, k, ch) => PagedTree::Node(id, k.take(t - 1), ch.take(t)),
    }
}

/// The right half of a full tree.
pub open spec fn right_tree(m: PagedTree, t: int, right_id: PageId) -> PagedTree {
    match m {
        PagedTree::Leaf(_, e, next) => PagedTree::Leaf(right_id, e.skip(t), next),
        PagedTree::Node(_, k, ch) => PagedTree::Node(right_id, k.skip(t), ch.skip(t)),
    }
}

/// A new root over the halves of a full one.
pub open spec fn over_halves(m: PagedTree, t: int, right_id: PageId, root_id: PageId) -> PagedTree {
    PagedTree::Node(
        root_id,
        seq![half_fence(m.shape(), t)],
        seq![left_tree(m, t, right_id), right_tree(m, t, right_id)],
    )
}

/// What stands on the pages of the halves.
pub proof fn lemma_half_shapes(m: PagedTree, t: int, right_id: PageId, root_id: PageId)
    requires
        t >= 2,
        m.bare().count() == 2 * t - 1,
        m matches PagedTree::Node(_, k, ch) ==> ch.len() == k.len() + 1,
    ensures
        left_tree(m, t, right_id).shape() == left_half(m.shape(), t, right_id),
        right_tree(m, t, right_id).shape() == right_half(m.shape(), t),
        over_halves(m, t, right_id, root_id).bare() == split_root(m.bare(), t),
        left_tree(m, t, right_id).bare() == cut(m.bare(), split_at(m.bare(), t)).0,
        right_tree(m, t, right_id).bare() == cut(m.bare(), split_at(m.bare(), t)).2,
        over_halves(m, t, right_id, root_id).shape() == NodeView::Internal(
            seq![half_fence(m.shape(), t)],
            seq![m.id(), right_id],
        ),
{
    let l = left_tree(m, t, right_id);
    let r = right_tree(m, t, right_id);
    let n = over_halves(m, t, right_id, root_id);
    lemma_bare(m);
    lemma_bare(l);
    lemma_bare(r);
    lemma_bare(n);
    if let PagedTree::Node(id, k, ch) = m {
        assert(row_ids(ch.take(t)) =~= row_ids(ch).take(t));
        assert(row_ids(ch.skip(t)) =~= row_ids(ch).skip(t));
        assert(bare_row(ch.take(t)) =~= bare_row(ch).take(t));
        assert(bare_row(ch.skip(t)) =~= bare_row(ch).skip(t));
    }
    assert(bare_row(seq![l, r]) =~= seq![l.bare(), r.bare()]);
    assert(row_ids(seq![l, r]) =~= seq![m.id(), right_id]);
}

proof fn lemma_half_stored(
    h: PagedTree,
    kids: Seq<PagedTree>,
    a: int,
    b: int,
    id: PageId,
    p: Map<PageId, Seq<u8>>,
    q: Map<PageId, Seq<u8>>,
)
    requires
        h.id() != NULL_PAGE,
        q.contains_key(h.id()),
        q[h.id()] == h.shape().image(),
        h.shape().packs(),
        h.shape().sound(),
        h is Node ==> 0 <= a <= b <= kids.len() && h.kids() == kids.subrange(a, b),
        row_stored(kids, p),
        forall|x: PageId| #[trigger] row_owns(kids, x) ==> x != id && q.contains_key(x) && q[x] == p[x],
    ensures
        h.stored(q),
{
    lemma_written(h, q);
    if let PagedTree::Node(_, _, ch) = h {
        assert forall|i: int| 0 <= i < ch.len() implies (#[trigger] ch[i]).stored(q) by {
            assert(ch[i] == kids[a + i]);
            assert forall|x: PageId| #[trigger] ch[i].owns(x) implies q.contains_key(x) && q[x] == p[x] by {
                assert(kids[a + i].owns(x));
                assert(row_owns(kids, x));
            }
            lemma_frame(ch[i], p, q);
        }
    }
}

/// A full root that was split is stored, once the three pages are written.
#[verifier::rlimit(50)]
pub proof fn lemma_over_halves(
    m: PagedTree,
    t: int,
    right_id: PageId,
    root_id: PageId,
    p: Map<PageId, Seq<u8>>,
    q: Map<PageId, Seq<u8>>,
)
    requires
        t >= 2,
        m.bare().count() == 2 * t - 1,
        m matches PagedTree::Node(_, k, ch) ==> ch.len() == k.len() + 1,
        m.stored(p),
        m.distinct(),
        m.linked(None),
        !p.contains_key(right_id),
        !p.contains_key(root_id),
        right_id != root_id,
        right_id != NULL_PAGE,
        root_id != NULL_PAGE,
        left_half(m.shape(), t, right_id).packs(),
        right_half(m.shape(), t).packs(),
        over_halves(m, t, right_id, root_id).shape().packs(),
        q == p.insert(m.id(), left_half(m.shape(), t, right_id).image()).insert(
            right_id,
            right_half(m.shape(), t).image(),
        ).insert(root_id, over_halves(m, t, right_id, root_id).shape().image()),
    ensures
        over_halves(m, t, right_id, root_id).stored(q),
        over_halves(m, t, right_id, root_id).distinct(),
        over_halves(m, t, right_id, root_id).linked(None),
{
    let l = left_tree(m, t, right_id);
    let r = right_tree(m, t, right_id);
    let n = over_halves(m, t, right_id, root_id);
    let id = m.id();
    let kids = m.kids();
    lemma_bare(m);
    lemma_half_shapes(m, t, right_id, root_id);
    assert(m.on_page(p));
    assert(m.shape().sound());
    assert(p.contains_key(id));
    assert forall|x: PageId| #[trigger] row_owns(kids, x) implies x != id && q.contains_key(x) && q[x]
        == p[x] && p.contains_key(x) by {
        let i = choose|i: int| 0 <= i < kids.len() && (#[trigger] kids[i]).owns(x);
        assert(kids[i].stored(p));
        lemma_owned(kids[i], p, x);
        assert(!kids[i].owns(id));
    }
    assert(row_stored(kids, p));
    if m is Node {
        let ch = kids;
        assert(ch.take(t) =~= ch.subrange(0, t));
        assert(ch.skip(t) =~= ch.subrange(t, ch.len() as int));
        assert(ch[t].stored(p));
        assert(row_ids(ch).skip(t)[0] == ch[t].id());
    }
    lemma_half_stored(l, kids, 0, t, id, p, q);
    lemma_half_stored(r, kids, t, kids.len() as int, id, p, q);
    lemma_written(n, q);
    let pair = seq![l, r];
    assert forall|i: int| 0 <= i < pair.len() implies (#[trigger] pair[i]).stored(q) by {}
    assert(n.stored(q));
    // What the halves own.
    assert forall|x: PageId| #[trigger] l.owns(x) implies x == id || (exists|i: int|
        0 <= i < t && i < kids.len() && (#[trigger] kids[i]).owns(x)) by {
        if x != id {
            let i = choose|i: int| 0 <= i < l.kids().len() && (#[trigger] l.kids()[i]).owns(x);
            assert(l.kids()[i] == kids[i]);
        }
    }
    assert forall|x: PageId| #[trigger] r.owns(x) implies x == right_id || (exists|i: int|
        t <= i < kids.len() && (#[trigger] kids[i]).owns(x)) by {
        if x != right_id {
            let i = choose|i: int| 0 <= i < r.kids().len() && (#[trigger] r.kids()[i]).owns(x);
            assert(r.kids()[i] == kids[t + i]);
        }
    }
    assert forall|i: int| 0 <= i < kids.len() implies (#[trigger] kids[i]).distinct() && !kids[i].owns(id)
        && !kids[i].owns(right_id) && !kids[i].owns(root_id) by {
        if kids[i].owns(right_id) {
            assert(row_owns(kids, right_id));
        }
        if kids[i].owns(root_id) {
            assert(row_owns(kids, root_id));
        }
    }
    assert(l.distinct()) by {
        if let PagedTree::Node(_, _, ch) = l {
            assert forall|i: int| 0 <= i < ch.len() implies (#[trigger] ch[i]).distinct() && !ch[i].owns(
                id,
            ) by {
                assert(ch[i] == kids[i]);
            }
            assert forall|i: int, j: int, x: PageId|
                #![trigger ch[i].owns(x), ch[j].owns(x)]
                0 <= i < j < ch.len() implies !(ch[i].owns(x) && ch[j].owns(x)) by {
                assert(ch[i] == kids[i] && ch[j] == kids[j]);
                assert(!(kids[i].owns(x) && kids[j].owns(x)));
            }
        }
    }
    assert(r.distinct()) by {
        if let PagedTree::Node(_, _, ch) = r {
            assert forall|i: int| 0 <= i < ch.len() implies (#[trigger] ch[i]).distinct() && !ch[i].owns(
                right_id,
            ) by {
                assert(ch[i] == kids[t + i]);
            }
            assert forall|i: int, j: int, x: PageId|
                #![trigger ch[i].owns(x), ch[j].owns(x)]
                0 <= i < j < ch.len() implies !(ch[i].owns(x) && ch[j].owns(x)) by {
                assert(ch[i] == kids[t + i] && ch[j] == kids[t + j]);
                assert(!(kids[t + i].owns(x) && kids[t + j].owns(x)));
            }
        }
    }
    assert forall|x: PageId| !(#[trigger] l.owns(x) && r.owns(x)) by {
        if l.owns(x) && r.owns(x) {
            if x == id {
                let j = choose|j: int| t <= j < kids.len() && (#[trigger] kids[j]).owns(x);
                assert(!kids[j].owns(id));
            } else {
                let i = choose|i: int| 0 <= i < t && i < kids.len() && (#[trigger] kids[i]).owns(x);
                if x == right_id {
                    assert(!kids[i].owns(right_id));
                } else {
                    let j = choose|j: int| t <= j < kids.len() && (#[trigger] kids[j]).owns(x);
                    assert(!(kids[i].owns(x) && kids[j].owns(x)));
                }
            }
        }
    }
    assert(!l.owns(root_id) && !r.owns(root_id));
    assert(n.distinct()) by {
        assert forall|i: int| 0 <= i < pair.len() implies (#[trigger] pair[i]).distinct()
            && !pair[i].owns(root_id) by {}
        assert forall|i: int, j: int, x: PageId|
            #![trigger pair[i].owns(x), pair[j].owns(x)]
            0 <= i < j < pair.len() implies !(pair[i].owns(x) && pair[j].owns(x)) by {
            assert(pair[i] == l && pair[j] == r);
        }
    }
    assert(l.linked(Some(r.first())) && r.linked(None)) by {
        if let PagedTree::Node(_, _, ch) = m {
            let a = ch.take(t);
            let b = ch.skip(t);
            assert(b[0] == ch[t]);
            assert forall|i: int| 0 <= i < a.len() implies a[i].linked(
                #[trigger] after(a, i, Some(r.first())),
            ) by {
                assert(ch[i].linked(after(ch, i, None)));
                if i + 1 < a.len() {
                    assert(a[i + 1] == ch[i + 1]);
                }
            }
            assert forall|i: int| 0 <= i < b.len() implies b[i].linked(#[trigger] after(b, i, None)) by {
                assert(b[i] == ch[t + i]);
                assert(ch[t + i].linked(after(ch, t + i, None)));
                if i + 1 < b.len() {
                    assert(b[i + 1] == ch[t + i + 1]);
                }
            }
        }
    }
    assert forall|i: int| 0 <= i < pair.len() implies pair[i].linked(#[trigger] after(pair, i, None)) by {
        if i == 0 {
            assert(pair[1] == r);
        }
    }
}

/// The leaves of a tree, from left to right.
pub open spec fn leaves(m: PagedTree) -> Seq<PagedTree>
    decreases m,
{
    match m {
        PagedTree::Leaf(_, _, _) => seq![m],
        PagedTree::Node(_, _, ch) => row_leaves(ch),
    }
}

/// The leaves of a row of trees.
pub open spec fn row_leaves(ch: Seq<PagedTree>) -> Seq<PagedTree>
    decreases ch,
{
    if ch.len() == 0 {
        Seq::empty()
    } else {
        row_leaves(ch.drop_last()) + leaves(ch.last())
    }
}

pub open spec fn leaf_entries(m: PagedTree) -> Seq<Entry> {
    match m {
        PagedTree::Leaf(_, e, _) => e,
        PagedTree::Node(_, _, _) => Seq::empty(),
    }
}

/// What a walk meets from entry `pos` of leaf `j` on.
pub open spec fn rest_at(ls: Seq<PagedTree>, j: int, pos: int) -> Seq<Entry> {
    leaf_entries(ls[j]).skip(pos) + flat(bare_row(ls.skip(j + 1)))
}

pub proof fn lemma_leaves(m: PagedTree, p: Map<PageId, Seq<u8>>, next: Option<PageId>)
    requires
        m.stored(p),
        m.linked(next),
    ensures
        leaves(m).len() > 0,
        leaves(m)[0].id() == m.first(),
        alike(leaves(m), true),
        row_stored(leaves(m), p),
        row_linked(leaves(m), next),
        flat(bare_row(leaves(m))) == m.bare().contents(),
    decreases m,
{
    match m {
        PagedTree::Leaf(_, e, _) => {
            assert(bare_row(seq![m]) =~= seq![m.bare()]);
            lemma_flat_one(m.bare());
            assert forall|i: int| 0 <= i < leaves(m).len() implies leaves(m)[i].linked(
                #[trigger] after(leaves(m), i, next),
            ) by {}
        },
        PagedTree::Node(_, _, ch) => {
            assert(row_linked(ch, next)) by {
                assert forall|i: int| 0 <= i < ch.len() implies ch[i].linked(#[trigger] after(ch, i, next)) by {}
            }
            lemma_row_leaves(ch, p, next);
            lemma_bare(m);
        },
    }
}

pub proof fn lemma_row_leaves(ch: Seq<PagedTree>, p: Map<PageId, Seq<u8>>, next: Option<PageId>)
    requires
        row_stored(ch, p),
        row_linked(ch, next),
    ensures
        ch.len() > 0 ==> row_leaves(ch).len() > 0 && row_leaves(ch)[0].id() == ch[0].first(),
        alike(row_leaves(ch), true),
        row_stored(row_leaves(ch), p),
        row_linked(row_leaves(ch), next),
        flat(bare_row(row_leaves(ch))) == flat(bare_row(ch)),
    decreases ch,
{
    if ch.len() > 0 {
        let z = ch.last();
        let d = ch.drop_last();
        let n = ch.len() - 1;
        let mid = Some(z.first());
        assert(ch[n].stored(p));
        assert(ch[n].linked(after(ch, n, next)));
        lemma_leaves(z, p, next);
        assert(row_linked(d, mid)) by {
            assert forall|i: int| 0 <= i < d.len() implies d[i].linked(#[trigger] after(d, i, mid)) by {
                assert(ch[i].linked(after(ch, i, next)));
                if i + 1 < d.len() {
                    assert(d[i + 1] == ch[i + 1]);
                }
            }
        }
        assert(row_stored(d, p)) by {
            assert forall|i: int| 0 <= i < d.len() implies (#[trigger] d[i]).stored(p) by {
                assert(d[i] == ch[i]);
            }
        }
        lemma_row_leaves(d, p, mid);
        let a = row_leaves(d);
        let b = leaves(z);
        let c = a + b;
        assert(row_leaves(ch) == c);
        if d.len() > 0 {
            assert(c[0] == a[0]);
        } else {
            assert(a =~= Seq::empty());
            assert(c[0] == b[0]);
        }
        assert forall|i: int| 0 <= i < c.len() implies ((#[trigger] c[i]) is Leaf) == true && c[i].stored(
            p,
        ) by {
            if i < a.len() {
                assert(c[i] == a[i]);
            } else {
                assert(c[i] == b[i - a.len()]);
            }
        }
        assert(b[0].first() == z.first());
        assert forall|i: int| 0 <= i < c.len() implies c[i].linked(#[trigger] after(c, i, next)) by {
            if i < a.len() {
                assert(c[i] == a[i]);
                assert(a[i].linked(after(a, i, mid)));
                if i + 1 < a.len() {
                    assert(c[i + 1] == a[i + 1]);
                } else {
                    assert(c[i + 1] == b[0]);
                }
            } else {
                let j = i - a.len();
                assert(c[i] == b[j]);
                assert(b[j].linked(after(b, j, next)));
                if j + 1 < b.len() {
                    assert(c[i + 1] == b[j + 1]);
                }
            }
        }
        assert(bare_row(c) =~= bare_row(a) + bare_row(b));
        lemma_flat_concat(bare_row(a), bare_row(b));
        assert(bare_row(ch).drop_last() =~= bare_row(d));
        assert(bare_row(ch).last() == z.bare());
    } else {
        assert(bare_row(row_leaves(ch)) =~= bare_row(ch));
    }
}

/// The leaves of two rows in one.
/// The leaves of a tree all of whose nodes fit on their pages fit on theirs.
pub proof fn lemma_leaves_neat(m: PagedTree)
    requires
        neat(m.bare()),
    ensures
        forall|i: int| 0 <= i < leaves(m).len() ==> roomy((#[trigger] leaves(m)[i]).bare()),
    decreases m,
{
    lemma_bare(m);
    if let PagedTree::Node(_, _, ch) = m {
        assert forall|i: int| 0 <= i < ch.len() implies neat((#[trigger] ch[i]).bare()) by {
            assert(m.bare()->Internal_1[i] == ch[i].bare());
            assert(neat(m.bare()->Internal_1[i]));
        }
        lemma_row_leaves_neat(ch);
    }
}

pub proof fn lemma_row_leaves_neat(ch: Seq<PagedTree>)
    requires
        forall|i: int| 0 <= i < ch.len() ==> neat((#[trigger] ch[i]).bare()),
    ensures
        forall|i: int| 0 <= i < row_leaves(ch).len() ==> roomy((#[trigger] row_leaves(ch)[i]).bare()),
    decreases ch,
{
    if ch.len() > 0 {
        let z = ch.last();
        let d = ch.drop_last();
        assert(neat(ch[ch.len() - 1].bare()));
        lemma_leaves_neat(z);
        assert forall|i: int| 0 <= i < d.len() implies neat((#[trigger] d[i]).bare()) by {
            assert(d[i] == ch[i]);
        }
        lemma_row_leaves_neat(d);
        let c = row_leaves(d) + leaves(z);
        assert(row_leaves(ch) == c);
        assert forall|i: int| 0 <= i < c.len() implies roomy((#[trigger] c[i]).bare()) by {
            if i < row_leaves(d).len() {
                assert(c[i] == row_leaves(d)[i]);
            } else {
                assert(c[i] == leaves(z)[i - row_leaves(d).len()]);
            }
        }
    }
}

pub proof fn lemma_row_leaves_concat(a: Seq<PagedTree>, b: Seq<PagedTree>)
    ensures
        row_leaves(a + b) == row_leaves(a) + row_leaves(b),
    decreases b,
{
    if b.len() == 0 {
        assert(a + b =~= a);
        assert(row_leaves(a) + row_leaves(b) =~= row_leaves(a));
    } else {
        assert((a + b).drop_last() =~= a + b.drop_last());
        assert((a + b).last() == b.last());
        lemma_row_leaves_concat(a, b.drop_last());
        assert(row_leaves(a + b) =~= row_leaves(a) + row_leaves(b));
    }
}

/// The leaves around child `ci`.
pub proof fn lemma_leaves_at(ch: Seq<PagedTree>, ci: int)
    requires
        0 <= ci < ch.len(),
    ensures
        row_leaves(ch) == row_leaves(ch.take(ci)) + leaves(ch[ci]) + row_leaves(ch.skip(ci + 1)),
{
    let a = ch.take(ci);
    let b = ch.skip(ci + 1);
    let one = seq![ch[ci]];
    assert(one.drop_last() =~= Seq::empty());
    assert(row_leaves(one.drop_last()) =~= Seq::empty());
    assert(row_leaves(one) == row_leaves(one.drop_last()) + leaves(one.last()));
    assert(row_leaves(one) =~= leaves(ch[ci]));
    lemma_row_leaves_concat(a, one);
    lemma_row_leaves_concat(a + one, b);
    assert(a + one + b =~= ch);
}

} // verus!
