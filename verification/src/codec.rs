//! Nodes as pages.
use crate::bytes::{overlay, zeros};
use crate::key::Key;
use crate::page::{
    count_of, internal_cell_ok, internal_child, internal_key, internal_ok, leaf_cell_ok, leaf_key,
    leaf_ok, leaf_value, link_of, slot_of, slot_ok, SLOTS, SlottedPage,
};
use crate::store::{type_byte, NULL_PAGE, PAGE_SIZE, PageId, PageType};
use vstd::bytes::{
    lemma_auto_spec_u16_to_from_le_bytes, lemma_auto_spec_u64_to_from_le_bytes,
    spec_u16_to_le_bytes, spec_u64_to_le_bytes, u16_to_le_bytes, u64_to_le_bytes,
};
use vstd::prelude::*;
use vstd::slice::slice_to_vec;
use vstd::std_specs::convert::{FromSpecImpl, TryFromSpecImpl};

verus! {

pub struct LeafEntry {
    pub key: Key,
    pub value: Vec<u8>,
}

pub struct Leaf {
    pub entries: Vec<LeafEntry>,
    pub next: Option<PageId>,
}

pub struct Internal {
    pub keys: Vec<Key>,
    pub children: Vec<PageId>,
}

pub enum Node {
    Leaf(Leaf),
    Internal(Internal),
}

impl LeafEntry {
    pub open spec fn view(&self) -> (Seq<u8>, Seq<u8>) {
        (self.key@, self.value@)
    }
}

impl Clone for LeafEntry {
    fn clone(&self) -> (r: Self)
        ensures
            r@ == self@,
    {
        LeafEntry { key: self.key.clone(), value: slice_to_vec(self.value.as_slice()) }
    }
}

/// A node as a mathematical value.
pub enum NodeView {
    Leaf(Seq<(Seq<u8>, Seq<u8>)>, Option<PageId>),
    Internal(Seq<Seq<u8>>, Seq<PageId>),
}

pub open spec fn entry_views(s: Seq<LeafEntry>) -> Seq<(Seq<u8>, Seq<u8>)> {
    Seq::new(s.len(), |i: int| s[i]@)
}

pub open spec fn key_views(s: Seq<Key>) -> Seq<Seq<u8>> {
    Seq::new(s.len(), |i: int| s[i]@)
}

impl Leaf {
    pub open spec fn view(&self) -> NodeView {
        NodeView::Leaf(entry_views(self.entries@), self.next)
    }
}

impl Internal {
    pub open spec fn view(&self) -> NodeView {
        NodeView::Internal(key_views(self.keys@), self.children@)
    }
}

impl Node {
    pub open spec fn view(&self) -> NodeView {
        match self {
            Node::Leaf(leaf) => leaf@,
            Node::Internal(internal) => internal@,
        }
    }
}

/// A cell of a leaf.
pub open spec fn leaf_cell(e: (Seq<u8>, Seq<u8>)) -> Seq<u8> {
    spec_u16_to_le_bytes(e.0.len() as u16) + spec_u16_to_le_bytes(e.1.len() as u16) + e.0 + e.1
}

/// A cell of an inner node.
pub open spec fn internal_cell(key: Seq<u8>, child: PageId) -> Seq<u8> {
    spec_u16_to_le_bytes(key.len() as u16) + key + spec_u64_to_le_bytes(child)
}

impl NodeView {
    pub open spec fn kind(self) -> PageType {
        match self {
            NodeView::Leaf(_, _) => PageType::Leaf,
            NodeView::Internal(_, _) => PageType::Internal,
        }
    }

    /// The page number in the head: the next leaf, or the leftmost child.
    pub open spec fn link(self) -> PageId {
        match self {
            NodeView::Leaf(_, Some(id)) => id,
            NodeView::Leaf(_, None) => NULL_PAGE,
            NodeView::Internal(_, ch) => if ch.len() > 0 {
                ch[0]
            } else {
                NULL_PAGE
            },
        }
    }

    pub open spec fn cells(self) -> Seq<Seq<u8>> {
        match self {
            NodeView::Leaf(e, _) => Seq::new(e.len(), |i: int| leaf_cell(e[i])),
            NodeView::Internal(k, ch) => Seq::new(k.len(), |i: int| internal_cell(k[i], ch[i + 1])),
        }
    }

    /// Every key has a child to its right.
    pub open spec fn rooted(self) -> bool {
        self matches NodeView::Internal(k, ch) ==> k.len() == 0 || ch.len() > k.len()
    }

    /// The bytes of the node.
    pub open spec fn image(self) -> Seq<u8> {
        image(
            match self.kind() {
                PageType::Leaf => 1,
                PageType::Internal => 2,
            },
            self.link(),
            self.cells(),
        )
    }

    /// Head, slots and cells have room on one page.
    pub open spec fn fits(self) -> bool {
        fits(self.cells())
    }

    /// The cells have room on one page; the slots may reach into them.
    pub open spec fn packs(self) -> bool {
        total(self.cells(), self.cells().len() as int) <= PAGE_SIZE
    }

    /// The cells have room on one page beside the head.
    pub open spec fn headed(self) -> bool {
        SLOTS + total(self.cells(), self.cells().len() as int) <= PAGE_SIZE
    }

    /// The numbers of a leaf's next page and of an inner node's children are those of pages,
    /// and an inner node has one more child than keys, or none of either.
    pub open spec fn sound(self) -> bool {
        match self {
            NodeView::Leaf(_, next) => next != Some(NULL_PAGE),
            NodeView::Internal(k, ch) => if ch.len() == 0 {
                k.len() == 0
            } else {
                ch.len() == k.len() + 1 && ch[0] != NULL_PAGE
            },
        }
    }
}

/// The bytes of the first `n` cells together.
pub open spec fn total(cells: Seq<Seq<u8>>, n: int) -> nat
    decreases n,
{
    if n <= 0 {
        0
    } else {
        total(cells, n - 1) + cells[n - 1].len()
    }
}

/// Where cell `i` begins: the cells are stacked from the end of the page downwards.
pub open spec fn start(cells: Seq<Seq<u8>>, i: int) -> int {
    PAGE_SIZE - total(cells, i + 1)
}

pub open spec fn fits(cells: Seq<Seq<u8>>) -> bool {
    SLOTS + 2 * cells.len() + total(cells, cells.len() as int) <= PAGE_SIZE
}

/// `p` after the first `n` cells and their slots were written to it.
pub open spec fn lay(p: Seq<u8>, cells: Seq<Seq<u8>>, n: int) -> Seq<u8>
    decreases n,
{
    if n <= 0 {
        p
    } else {
        let at = start(cells, n - 1);
        overlay(
            overlay(lay(p, cells, n - 1), at, cells[n - 1]),
            SLOTS + 2 * (n - 1),
            spec_u16_to_le_bytes(at as u16),
        )
    }
}

/// The head of a page, before the cells are written.
pub open spec fn head(kind: u8, link: PageId, n: int) -> Seq<u8> {
    overlay(
        overlay(
            overlay(zeros(PAGE_SIZE as nat), 0, seq![kind]),
            1,
            spec_u16_to_le_bytes(n as u16),
        ),
        5,
        spec_u64_to_le_bytes(link),
    )
}

/// A page of a type, with a page number and cells.
pub open spec fn image(kind: u8, link: PageId, cells: Seq<Seq<u8>>) -> Seq<u8> {
    let n = cells.len() as int;
    overlay(lay(head(kind, link, n), cells, n), 3, spec_u16_to_le_bytes(start(cells, n - 1) as u16))
}

/// The node that a page holds.
pub open spec fn node_of(p: Seq<u8>) -> NodeView {
    if p[0] == 1 {
        NodeView::Leaf(
            Seq::new(count_of(p) as nat, |i: int| (leaf_key(p, i), leaf_value(p, i))),
            if link_of(p) == NULL_PAGE {
                None
            } else {
                Some(link_of(p))
            },
        )
    } else {
        NodeView::Internal(
            Seq::new(count_of(p) as nat, |i: int| internal_key(p, i)),
            first_child(p) + Seq::new(count_of(p) as nat, |i: int| internal_child(p, i)),
        )
    }
}

/// The leftmost child, where there is one.
pub open spec fn first_child(p: Seq<u8>) -> Seq<PageId> {
    if link_of(p) == NULL_PAGE {
        Seq::empty()
    } else {
        seq![link_of(p)]
    }
}

/// The page has a type, and its cells lie on it.
pub open spec fn legible(p: Seq<u8>) -> bool {
    ||| p[0] == 1 && leaf_ok(p)
    ||| p[0] == 2 && internal_ok(p)
}

pub proof fn lemma_total(cells: Seq<Seq<u8>>, i: int, n: int)
    requires
        0 <= i <= n <= cells.len(),
    ensures
        total(cells, i) <= total(cells, n),
    decreases n,
{
    if i < n {
        lemma_total(cells, i, n - 1);
    }
}

/// Cell `i` and its slot are on the page.
pub open spec fn laid(p: Seq<u8>, cells: Seq<Seq<u8>>, i: int) -> bool {
    &&& p.subrange(start(cells, i), start(cells, i) + cells[i].len()) == cells[i]
    &&& p.subrange(SLOTS + 2 * i, SLOTS + 2 * i + 2) == spec_u16_to_le_bytes(start(cells, i) as u16)
}

proof fn lemma_lay(p: Seq<u8>, cells: Seq<Seq<u8>>, n: int)
    requires
        p.len() == PAGE_SIZE,
        fits(cells),
        0 <= n <= cells.len(),
    ensures
        lay(p, cells, n).len() == PAGE_SIZE,
        forall|j: int| 0 <= j < SLOTS ==> #[trigger] lay(p, cells, n)[j] == p[j],
        forall|i: int| 0 <= i < n ==> #[trigger] laid(lay(p, cells, n), cells, i),
        forall|j: int|
            SLOTS + 2 * n <= j < PAGE_SIZE - total(cells, n) ==> #[trigger] lay(p, cells, n)[j] == p[j],
    decreases n,
{
    if n > 0 {
        lemma_lay(p, cells, n - 1);
        lemma_auto_spec_u16_to_from_le_bytes();
        let q = lay(p, cells, n - 1);
        let r = lay(p, cells, n);
        let at = start(cells, n - 1);
        lemma_total(cells, n, cells.len() as int);
        assert forall|i: int| 0 <= i < n implies #[trigger] laid(r, cells, i) by {
            lemma_total(cells, i + 1, n);
            if i < n - 1 {
                lemma_total(cells, i + 1, n - 1);
                assert(laid(q, cells, i));
                assert forall|j: int| 0 <= j < cells[i].len() implies r[start(cells, i) + j]
                    == cells[i][j] by {
                    assert(q.subrange(start(cells, i), start(cells, i) + cells[i].len())[j]
                        == cells[i][j]);
                }
                let w = spec_u16_to_le_bytes(start(cells, i) as u16);
                assert forall|j: int| 0 <= j < 2 implies r[SLOTS + 2 * i + j] == w[j] by {
                    assert(q.subrange(SLOTS + 2 * i, SLOTS + 2 * i + 2)[j] == w[j]);
                }
            }
            assert(r.subrange(start(cells, i), start(cells, i) + cells[i].len()) =~= cells[i]);
            assert(r.subrange(SLOTS + 2 * i, SLOTS + 2 * i + 2) =~= spec_u16_to_le_bytes(
                start(cells, i) as u16,
            ));
        }
    }
}

/// The bytes of a page: its head, its slots, its cells, and zeros between the last two.
pub proof fn lemma_layout(kind: u8, link: PageId, cells: Seq<Seq<u8>>)
    requires
        fits(cells),
    ensures
        ({
            let p = image(kind, link, cells);
            let n = cells.len() as int;
            &&& p.len() == PAGE_SIZE
            &&& p[0] == kind
            &&& p.subrange(1, 3) == spec_u16_to_le_bytes(n as u16)
            &&& p.subrange(3, 5) == spec_u16_to_le_bytes((PAGE_SIZE - total(cells, n)) as u16)
            &&& p.subrange(5, 13) == spec_u64_to_le_bytes(link)
            &&& p[13] == 0 && p[14] == 0 && p[15] == 0
            &&& forall|i: int| 0 <= i < n ==> #[trigger] laid(p, cells, i)
            &&& forall|j: int|
                SLOTS + 2 * n <= j < PAGE_SIZE - total(cells, n) ==> #[trigger] p[j] == 0
        }),
{
    let n = cells.len() as int;
    let h = head(kind, link, n);
    let q = lay(h, cells, n);
    let p = image(kind, link, cells);
    lemma_auto_spec_u16_to_from_le_bytes();
    lemma_auto_spec_u64_to_from_le_bytes();
    lemma_lay(h, cells, n);
    lemma_total(cells, 0, n);
    assert forall|j: int| 0 <= j < SLOTS && j != 3 && j != 4 implies #[trigger] p[j] == h[j] by {
        assert(q[j] == h[j]);
    }
    assert(p.subrange(1, 3) =~= spec_u16_to_le_bytes(n as u16));
    assert(p.subrange(3, 5) =~= spec_u16_to_le_bytes((PAGE_SIZE - total(cells, n)) as u16));
    assert(p.subrange(5, 13) =~= spec_u64_to_le_bytes(link));
    assert forall|j: int| SLOTS + 2 * n <= j < PAGE_SIZE - total(cells, n) implies #[trigger] p[j]
        == 0 by {
        assert(q[j] == h[j]);
    }
    assert forall|i: int| 0 <= i < n implies #[trigger] laid(p, cells, i) by {
        assert(laid(q, cells, i));
        lemma_total(cells, i + 1, n);
        let at = start(cells, i);
        assert(p.subrange(SLOTS + 2 * i, SLOTS + 2 * i + 2) =~= q.subrange(
            SLOTS + 2 * i,
            SLOTS + 2 * i + 2,
        ));
        assert(p.subrange(at, at + cells[i].len()) =~= q.subrange(at, at + cells[i].len()));
    }
}

/// What is written to a page can be read back from its parts.
proof fn lemma_image(kind: u8, link: PageId, cells: Seq<Seq<u8>>)
    requires
        fits(cells),
    ensures
        ({
            let p = image(kind, link, cells);
            &&& p.len() == PAGE_SIZE
            &&& p[0] == kind
            &&& count_of(p) == cells.len()
            &&& link_of(p) == link
            &&& forall|i: int|
                0 <= i < cells.len() ==> {
                    &&& #[trigger] slot_of(p, i) == start(cells, i)
                    &&& p.subrange(start(cells, i), start(cells, i) + cells[i].len()) == cells[i]
                }
        }),
{
    let n = cells.len() as int;
    let h = head(kind, link, n);
    let q = lay(h, cells, n);
    let p = image(kind, link, cells);
    lemma_auto_spec_u16_to_from_le_bytes();
    lemma_auto_spec_u64_to_from_le_bytes();
    lemma_lay(h, cells, n);
    lemma_total(cells, 0, n);
    let c = spec_u16_to_le_bytes(n as u16);
    assert(p.subrange(1, 3) =~= c) by {
        assert(q[1] == h[1] && q[2] == h[2]);
    }
    assert(p.subrange(5, 13) =~= spec_u64_to_le_bytes(link)) by {
        assert forall|j: int| 5 <= j < 13 implies p[j] == spec_u64_to_le_bytes(link)[j - 5] by {
            assert(q[j] == h[j]);
        }
    }
    assert(q[0] == h[0]);
    assert forall|i: int| 0 <= i < cells.len() implies {
        &&& #[trigger] slot_of(p, i) == start(cells, i)
        &&& p.subrange(start(cells, i), start(cells, i) + cells[i].len()) == cells[i]
    } by {
        assert(laid(q, cells, i));
        lemma_total(cells, i + 1, n);
        assert(p.subrange(SLOTS + 2 * i, SLOTS + 2 * i + 2) =~= q.subrange(
            SLOTS + 2 * i,
            SLOTS + 2 * i + 2,
        ));
        assert(p.subrange(start(cells, i), start(cells, i) + cells[i].len()) =~= q.subrange(
            start(cells, i),
            start(cells, i) + cells[i].len(),
        ));
    }
}

/// A part of a part.
pub proof fn lemma_sub(p: Seq<u8>, at: int, c: Seq<u8>, i: int, j: int)
    requires
        0 <= at,
        at + c.len() <= p.len(),
        p.subrange(at, at + c.len()) == c,
        0 <= i <= j <= c.len(),
    ensures
        p.subrange(at + i, at + j) == c.subrange(i, j),
{
    assert forall|x: int| i <= x < j implies p[at + x] == c[x] by {
        assert(p.subrange(at, at + c.len())[x] == c[x]);
    }
    assert(p.subrange(at + i, at + j) =~= c.subrange(i, j));
}

proof fn lemma_leaf_cell(p: Seq<u8>, i: int, at: int, e: (Seq<u8>, Seq<u8>))
    requires
        p.len() == PAGE_SIZE,
        slot_ok(i),
        slot_of(p, i) == at,
        0 <= at,
        at + leaf_cell(e).len() <= PAGE_SIZE,
        p.subrange(at, at + leaf_cell(e).len()) == leaf_cell(e),
    ensures
        leaf_cell_ok(p, i),
        leaf_key(p, i) == e.0,
        leaf_value(p, i) == e.1,
{
    lemma_auto_spec_u16_to_from_le_bytes();
    let c = leaf_cell(e);
    let a = e.0.len() as int;
    let b = e.1.len() as int;
    assert(c.len() == 4 + a + b);
    lemma_sub(p, at, c, 0, 2);
    lemma_sub(p, at, c, 2, 4);
    lemma_sub(p, at, c, 4, 4 + a);
    lemma_sub(p, at, c, 4 + a, 4 + a + b);
    assert(c.subrange(0, 2) =~= spec_u16_to_le_bytes(a as u16));
    assert(c.subrange(2, 4) =~= spec_u16_to_le_bytes(b as u16));
    assert(c.subrange(4, 4 + a) =~= e.0);
    assert(c.subrange(4 + a, 4 + a + b) =~= e.1);
}

proof fn lemma_internal_cell(p: Seq<u8>, i: int, at: int, k: Seq<u8>, child: PageId)
    requires
        p.len() == PAGE_SIZE,
        slot_ok(i),
        slot_of(p, i) == at,
        0 <= at,
        at + internal_cell(k, child).len() <= PAGE_SIZE,
        p.subrange(at, at + internal_cell(k, child).len()) == internal_cell(k, child),
    ensures
        internal_cell_ok(p, i),
        internal_key(p, i) == k,
        internal_child(p, i) == child,
{
    lemma_auto_spec_u16_to_from_le_bytes();
    lemma_auto_spec_u64_to_from_le_bytes();
    let c = internal_cell(k, child);
    let a = k.len() as int;
    assert(c.len() == 10 + a);
    lemma_sub(p, at, c, 0, 2);
    lemma_sub(p, at, c, 2, 2 + a);
    lemma_sub(p, at, c, 2 + a, 10 + a);
    assert(c.subrange(0, 2) =~= spec_u16_to_le_bytes(a as u16));
    assert(c.subrange(2, 2 + a) =~= k);
    assert(c.subrange(2 + a, 10 + a) =~= spec_u64_to_le_bytes(child));
}

/// Reading gives back what was written: a node that fits on a page is the node that its
/// page holds.
pub proof fn lemma_round_trip(n: NodeView)
    requires
        n.fits(),
        n.sound(),
    ensures
        n.image().len() == PAGE_SIZE,
        legible(n.image()),
        node_of(n.image()) == n,
{
    let cells = n.cells();
    let p = n.image();
    let kind: u8 = match n.kind() {
        PageType::Leaf => 1,
        PageType::Internal => 2,
    };
    lemma_image(kind, n.link(), cells);
    lemma_auto_spec_u16_to_from_le_bytes();
    match n {
        NodeView::Leaf(e, next) => {
            assert forall|i: int| 0 <= i < e.len() implies leaf_cell_ok(p, i) && leaf_key(p, i)
                == e[i].0 && leaf_value(p, i) == e[i].1 by {
                lemma_total(cells, i + 1, cells.len() as int);
                assert(cells[i] == leaf_cell(e[i]));
                assert(slot_of(p, i) == start(cells, i));
                lemma_leaf_cell(p, i, start(cells, i), e[i]);
            }
            assert(node_of(p)->Leaf_0 =~= e);
        },
        NodeView::Internal(k, ch) => {
            assert forall|i: int| 0 <= i < k.len() implies internal_cell_ok(p, i) && internal_key(
                p,
                i,
            ) == k[i] && internal_child(p, i) == ch[i + 1] by {
                lemma_total(cells, i + 1, cells.len() as int);
                assert(cells[i] == internal_cell(k[i], ch[i + 1]));
                assert(slot_of(p, i) == start(cells, i));
                lemma_internal_cell(p, i, start(cells, i), k[i], ch[i + 1]);
            }
            assert(node_of(p)->Internal_0 =~= k);
            assert(node_of(p)->Internal_1 =~= ch);
        },
    }
}

proof fn lemma_lay_head(p: Seq<u8>, cells: Seq<Seq<u8>>, n: int)
    requires
        p.len() == PAGE_SIZE,
        0 <= n <= cells.len(),
    ensures
        lay(p, cells, n).len() == PAGE_SIZE,
        SLOTS + total(cells, n) <= PAGE_SIZE ==> forall|j: int|
            0 <= j < SLOTS ==> #[trigger] lay(p, cells, n)[j] == p[j],
    decreases n,
{
    if n > 0 {
        lemma_lay_head(p, cells, n - 1);
        lemma_total(cells, n - 1, n);
    }
}

/// A node whose cells leave the head alone can be told by its page: what it is, how many cells it
/// has, and the page number in the head.
pub proof fn lemma_head(n: NodeView)
    ensures
        n.image().len() == PAGE_SIZE,
        n.headed() ==> {
            &&& n.image()[0] == type_byte(n.kind())
            &&& count_of(n.image()) == n.cells().len()
            &&& link_of(n.image()) == n.link()
        },
{
    let cells = n.cells();
    let c = cells.len() as int;
    let kind: u8 = match n.kind() {
        PageType::Leaf => 1,
        PageType::Internal => 2,
    };
    let h = head(kind, n.link(), c);
    let q = lay(h, cells, c);
    let p = n.image();
    lemma_auto_spec_u16_to_from_le_bytes();
    lemma_auto_spec_u64_to_from_le_bytes();
    lemma_lay_head(h, cells, c);
    assert(p.len() == PAGE_SIZE);
    if n.headed() {
        assert forall|i: int| 0 <= i < cells.len() implies (#[trigger] cells[i]).len() >= 4 by {
            match n {
                NodeView::Leaf(e, _) => {
                    assert(cells[i] == leaf_cell(e[i]));
                },
                NodeView::Internal(k, ch) => {
                    assert(cells[i] == internal_cell(k[i], ch[i + 1]));
                },
            }
        }
        lemma_slots(cells, c);
        assert(p.subrange(1, 3) =~= spec_u16_to_le_bytes(c as u16)) by {
            assert(q[1] == h[1] && q[2] == h[2]);
        }
        assert(p.subrange(5, 13) =~= spec_u64_to_le_bytes(n.link())) by {
            assert forall|j: int| 5 <= j < 13 implies p[j] == spec_u64_to_le_bytes(n.link())[j - 5] by {
                assert(q[j] == h[j]);
            }
        }
        assert(q[0] == h[0]);
    }
}

proof fn lemma_total_remove(cells: Seq<Seq<u8>>, i: int, n: int)
    requires
        0 <= i < n <= cells.len(),
    ensures
        total(cells.remove(i), n - 1) + cells[i].len() == total(cells, n),
    decreases n,
{
    let c = cells.remove(i);
    if n - 1 > i {
        lemma_total_remove(cells, i, n - 1);
        assert(c[n - 2] == cells[n - 1]);
    } else {
        lemma_total_same(c, cells, i);
    }
}

proof fn lemma_total_same(a: Seq<Seq<u8>>, b: Seq<Seq<u8>>, n: int)
    requires
        0 <= n <= a.len(),
        n <= b.len(),
        forall|i: int| 0 <= i < n ==> a[i] == b[i],
    ensures
        total(a, n) == total(b, n),
    decreases n,
{
    if n > 0 {
        lemma_total_same(a, b, n - 1);
    }
}

/// A leaf that fits on a page still fits when an entry is taken out.
pub proof fn lemma_fits_remove(e: Seq<(Seq<u8>, Seq<u8>)>, next: Option<PageId>, i: int)
    requires
        NodeView::Leaf(e, next).fits(),
        0 <= i < e.len(),
    ensures
        NodeView::Leaf(e.remove(i), next).fits(),
{
    let c = NodeView::Leaf(e, next).cells();
    let d = NodeView::Leaf(e.remove(i), next).cells();
    lemma_total_remove(c, i, c.len() as int);
    assert(d =~= c.remove(i));
}

/// Writes `b` over `buf` from `at` on.
fn write_bytes(buf: &mut [u8; PAGE_SIZE], at: usize, b: &[u8])
    requires
        at + b.len() <= PAGE_SIZE,
    ensures
        final(buf)@ == overlay(old(buf)@, at as int, b@),
{
    let mut i: usize = 0;
    while i < b.len()
        invariant
            i <= b@.len(),
            at + b.len() <= PAGE_SIZE,
            buf@ == overlay(old(buf)@, at as int, b@.take(i as int)),
        decreases b@.len() - i,
    {
        let ghost before = buf@;
        buf[at + i] = b[i];
        i += 1;
        assert(buf@ =~= overlay(old(buf)@, at as int, b@.take(i as int)));
    }
    assert(b@.take(i as int) =~= b@);
}

fn new_page(kind: u8, link: PageId, n: usize) -> (r: [u8; PAGE_SIZE])
    requires
        n <= u16::MAX,
    ensures
        r@ == head(kind, link, n as int),
{
    proof {
        lemma_auto_spec_u16_to_from_le_bytes();
        lemma_auto_spec_u64_to_from_le_bytes();
    }
    let mut buf = [0u8; PAGE_SIZE];
    assert(buf@ =~= zeros(PAGE_SIZE as nat));
    buf[0] = kind;
    assert(buf@ =~= overlay(zeros(PAGE_SIZE as nat), 0, seq![kind]));
    write_bytes(&mut buf, 1, u16_to_le_bytes(n as u16).as_slice());
    write_bytes(&mut buf, 5, u64_to_le_bytes(link).as_slice());
    buf
}

/// A slot for cell `i` is on the page, if the cells are.
proof fn lemma_slots(cells: Seq<Seq<u8>>, n: int)
    requires
        0 <= n <= cells.len(),
        forall|i: int| 0 <= i < cells.len() ==> (#[trigger] cells[i]).len() >= 4,
    ensures
        total(cells, n) >= 4 * n,
    decreases n,
{
    if n > 0 {
        lemma_slots(cells, n - 1);
    }
}

impl Leaf {
    pub fn new() -> (r: Self)
        ensures
            r@ == NodeView::Leaf(Seq::empty(), None),
    {
        let r = Self { entries: Vec::new(), next: None };
        assert(entry_views(r.entries@) =~= Seq::empty());
        r
    }

    /// The page of the leaf. The cells must have room on a page; where the slots reach into
    /// them, the page is not one that can be read back.
    pub fn serialize(&self) -> (r: [u8; PAGE_SIZE])
        requires
            total(self@.cells(), self@.cells().len() as int) <= PAGE_SIZE,
        ensures
            r@ == self@.image(),
    {
        let ghost e = entry_views(self.entries@);
        let ghost cells = self@.cells();
        let n = self.entries.len();
        proof {
            lemma_auto_spec_u16_to_from_le_bytes();
            assert forall|i: int| 0 <= i < cells.len() implies (#[trigger] cells[i]).len() >= 4 by {
                assert(cells[i] == leaf_cell(e[i]));
            }
            lemma_slots(cells, n as int);
        }
        let link = match self.next {
            Some(id) => id,
            None => NULL_PAGE,
        };
        let mut buf = new_page(1, link, n);
        let mut free = PAGE_SIZE;
        let mut i: usize = 0;
        while i < n
            invariant
                i <= n,
                n == self.entries@.len(),
                e == entry_views(self.entries@),
                cells == self@.cells(),
                4 * n <= total(cells, n as int) <= PAGE_SIZE,
                free == PAGE_SIZE - total(cells, i as int),
                buf@ == lay(head(1, self@.link(), n as int), cells, i as int),
            decreases n - i,
        {
            let entry = &self.entries[i];
            let k = entry.key.as_bytes();
            let v = entry.value.as_slice();
            let ghost c = cells[i as int];
            proof {
                lemma_auto_spec_u16_to_from_le_bytes();
                assert(e[i as int] == (k@, v@));
                assert(c == leaf_cell(e[i as int]));
                lemma_total(cells, i + 1, n as int);
            }
            let size = 4 + k.len() + v.len();
            free -= size;
            let ghost b0 = buf@;
            write_bytes(&mut buf, free, u16_to_le_bytes(k.len() as u16).as_slice());
            write_bytes(&mut buf, free + 2, u16_to_le_bytes(v.len() as u16).as_slice());
            write_bytes(&mut buf, free + 4, k);
            write_bytes(&mut buf, free + 4 + k.len(), v);
            assert(buf@ =~= overlay(b0, free as int, c));
            let slot = SLOTS + i * 2;
            write_bytes(&mut buf, slot, u16_to_le_bytes(free as u16).as_slice());
            i += 1;
        }
        assert(cells.len() == n);
        write_bytes(&mut buf, 3, u16_to_le_bytes(free as u16).as_slice());
        buf
    }

    /// The leaf that a page holds.
    pub fn deserialize(bytes: &[u8; PAGE_SIZE]) -> (r: Result<Self, &'static str>)
        requires
            leaf_ok(bytes@),
        ensures
            r matches Ok(leaf) && (bytes@[0] == 1 ==> leaf@ == node_of(bytes@)),
            r matches Ok(leaf) && entry_views(leaf.entries@) == Seq::new(
                count_of(bytes@) as nat,
                |i: int| (leaf_key(bytes@, i), leaf_value(bytes@, i)),
            ) && leaf.next == (if link_of(bytes@) == NULL_PAGE {
                None
            } else {
                Some(link_of(bytes@))
            }),
    {
        let page = SlottedPage(bytes);
        let n = page.cell_count();
        let mut entries: Vec<LeafEntry> = Vec::with_capacity(n);
        let mut i: usize = 0;
        while i < n
            invariant
                i <= n,
                n == count_of(bytes@),
                page@ == bytes@,
                leaf_ok(bytes@),
                entries@.len() == i,
                forall|j: int|
                    0 <= j < i ==> (#[trigger] entries@[j])@ == (
                        leaf_key(bytes@, j),
                        leaf_value(bytes@, j),
                    ),
            decreases n - i,
        {
            assert(leaf_cell_ok(bytes@, i as int));
            entries.push(
                LeafEntry {
                    key: Key(slice_to_vec(page.get_leaf_key(i))),
                    value: slice_to_vec(page.get_leaf_value(i)),
                },
            );
            i += 1;
        }
        let next_val = page.next_leaf();
        let leaf = Leaf {
            entries,
            next: if next_val == NULL_PAGE {
                None
            } else {
                Some(next_val)
            },
        };
        assert(entry_views(leaf.entries@) =~= Seq::new(
            count_of(bytes@) as nat,
            |i: int| (leaf_key(bytes@, i), leaf_value(bytes@, i)),
        ));
        Ok(leaf)
    }
}

impl Internal {
    pub fn new() -> (r: Self)
        ensures
            r@ == NodeView::Internal(Seq::empty(), Seq::empty()),
    {
        let r = Self { keys: Vec::new(), children: Vec::new() };
        assert(key_views(r.keys@) =~= Seq::empty());
        r
    }

    /// The page of the inner node. The cells must have room on a page; where the slots reach
    /// into them, the page is not one that can be read back.
    pub fn serialize(&self) -> (r: [u8; PAGE_SIZE])
        requires
            self@.rooted(),
            total(self@.cells(), self@.cells().len() as int) <= PAGE_SIZE,
        ensures
            r@ == self@.image(),
    {
        let ghost keys = key_views(self.keys@);
        let ghost cells = self@.cells();
        let n = self.keys.len();
        proof {
            lemma_auto_spec_u16_to_from_le_bytes();
            lemma_auto_spec_u64_to_from_le_bytes();
            assert forall|i: int| 0 <= i < cells.len() implies (#[trigger] cells[i]).len() >= 4 by {
                assert(cells[i] == internal_cell(keys[i], self.children@[i + 1]));
            }
            lemma_slots(cells, n as int);
        }
        let leftmost = if self.children.len() > 0 {
            self.children[0]
        } else {
            NULL_PAGE
        };
        let mut buf = new_page(2, leftmost, n);
        let mut free = PAGE_SIZE;
        let mut i: usize = 0;
        while i < n
            invariant
                i <= n,
                n == self.keys@.len(),
                self@.rooted(),
                keys == key_views(self.keys@),
                cells == self@.cells(),
                4 * n <= total(cells, n as int) <= PAGE_SIZE,
                free == PAGE_SIZE - total(cells, i as int),
                buf@ == lay(head(2, self@.link(), n as int), cells, i as int),
            decreases n - i,
        {
            let k = self.keys[i].as_bytes();
            let right_child = self.children[i + 1];
            let ghost c = cells[i as int];
            proof {
                lemma_auto_spec_u16_to_from_le_bytes();
                lemma_auto_spec_u64_to_from_le_bytes();
                assert(keys[i as int] == k@);
                assert(c == internal_cell(k@, right_child));
                lemma_total(cells, i + 1, n as int);
            }
            let size = 2 + k.len() + 8;
            free -= size;
            let ghost b0 = buf@;
            write_bytes(&mut buf, free, u16_to_le_bytes(k.len() as u16).as_slice());
            write_bytes(&mut buf, free + 2, k);
            write_bytes(&mut buf, free + 2 + k.len(), u64_to_le_bytes(right_child).as_slice());
            assert(buf@ =~= overlay(b0, free as int, c));
            let slot = SLOTS + i * 2;
            write_bytes(&mut buf, slot, u16_to_le_bytes(free as u16).as_slice());
            i += 1;
        }
        assert(cells.len() == n);
        write_bytes(&mut buf, 3, u16_to_le_bytes(free as u16).as_slice());
        buf
    }

    /// The inner node that a page holds.
    pub fn deserialize(bytes: &[u8; PAGE_SIZE]) -> (r: Result<Self, &'static str>)
        requires
            internal_ok(bytes@),
        ensures
            r matches Ok(internal) && (bytes@[0] != 1 ==> internal@ == node_of(bytes@)),
            r matches Ok(internal) && key_views(internal.keys@) == Seq::new(
                count_of(bytes@) as nat,
                |i: int| internal_key(bytes@, i),
            ) && internal.children@ == first_child(bytes@) + Seq::new(
                count_of(bytes@) as nat,
                |i: int| internal_child(bytes@, i),
            ),
    {
        let page = SlottedPage(bytes);
        let n = page.cell_count();
        let mut keys: Vec<Key> = Vec::with_capacity(n);
        let mut children: Vec<PageId> = Vec::with_capacity(n + 1);
        let leftmost = page.leftmost_child();
        if leftmost != NULL_PAGE {
            children.push(leftmost);
        }
        let ghost first = children@;
        assert(first =~= first_child(bytes@));
        let mut i: usize = 0;
        while i < n
            invariant
                i <= n,
                n == count_of(bytes@),
                page@ == bytes@,
                internal_ok(bytes@),
                keys@.len() == i,
                forall|j: int| 0 <= j < i ==> (#[trigger] keys@[j])@ == internal_key(bytes@, j),
                children@ == first + Seq::new(i as nat, |j: int| internal_child(bytes@, j)),
            decreases n - i,
        {
            assert(internal_cell_ok(bytes@, i as int));
            keys.push(Key(slice_to_vec(page.get_internal_key(i))));
            children.push(page.get_internal_child(i));
            i += 1;
            assert(children@ =~= first + Seq::new(i as nat, |j: int| internal_child(bytes@, j)));
        }
        let internal = Internal { keys, children };
        assert(key_views(internal.keys@) =~= Seq::new(
            count_of(bytes@) as nat,
            |i: int| internal_key(bytes@, i),
        ));
        Ok(internal)
    }
}

/// Whether a page holds a node.
pub fn is_legible(bytes: &[u8; PAGE_SIZE]) -> (r: bool)
    ensures
        r == legible(bytes@),
{
    let page = SlottedPage(bytes);
    if bytes[0] == 1 {
        page.leaf_cells_ok()
    } else {
        bytes[0] == 2 && page.internal_cells_ok()
    }
}

impl Node {
    pub open spec fn spec_count(self) -> nat {
        match self {
            Node::Leaf(leaf) => leaf.entries@.len(),
            Node::Internal(internal) => internal.keys@.len(),
        }
    }

    pub fn key_count(&self) -> (r: usize)
        ensures
            r == self.spec_count(),
    {
        match self {
            Node::Leaf(leaf) => leaf.entries.len(),
            Node::Internal(internal) => internal.keys.len(),
        }
    }

    pub fn is_leaf(&self) -> (r: bool)
        ensures
            r == (self is Leaf),
    {
        match self {
            Node::Leaf(_) => true,
            Node::Internal(_) => false,
        }
    }

    pub fn is_internal(&self) -> (r: bool)
        ensures
            r == (self is Internal),
    {
        match self {
            Node::Leaf(_) => false,
            Node::Internal(_) => true,
        }
    }

    /// The page of the node.
    pub fn serialize(&self) -> (r: [u8; PAGE_SIZE])
        requires
            self@.rooted(),
            total(self@.cells(), self@.cells().len() as int) <= PAGE_SIZE,
        ensures
            r@ == self@.image(),
    {
        match self {
            Node::Leaf(leaf) => leaf.serialize(),
            Node::Internal(internal) => internal.serialize(),
        }
    }

    /// The node that a page holds.
    pub fn deserialize(bytes: &[u8; PAGE_SIZE]) -> (r: Node)
        requires
            legible(bytes@),
        ensures
            r@ == node_of(bytes@),
    {
        if PageType::from_byte(bytes[0]) == PageType::Leaf {
            Node::Leaf(Leaf::deserialize(bytes).unwrap())
        } else {
            Node::Internal(Internal::deserialize(bytes).unwrap())
        }
    }
}

impl TryFrom<Node> for Leaf {
    type Error = &'static str;

    fn try_from(value: Node) -> (r: Result<Self, &'static str>) {
        match value {
            Node::Leaf(leaf) => Ok(leaf),
            Node::Internal(_) => Err("Not a leaf"),
        }
    }
}

impl TryFromSpecImpl<Node> for Leaf {
    open spec fn obeys_try_from_spec() -> bool {
        true
    }

    open spec fn try_from_spec(value: Node) -> Result<Self, &'static str> {
        match value {
            Node::Leaf(leaf) => Ok(leaf),
            Node::Internal(_) => Err("Not a leaf"),
        }
    }
}

impl TryFrom<Node> for Internal {
    type Error = &'static str;

    fn try_from(value: Node) -> (r: Result<Self, &'static str>) {
        match value {
            Node::Internal(internal) => Ok(internal),
            Node::Leaf(_) => Err("Not an internal node"),
        }
    }
}

impl TryFromSpecImpl<Node> for Internal {
    open spec fn obeys_try_from_spec() -> bool {
        true
    }

    open spec fn try_from_spec(value: Node) -> Result<Self, &'static str> {
        match value {
            Node::Internal(internal) => Ok(internal),
            Node::Leaf(_) => Err("Not an internal node"),
        }
    }
}

impl From<Leaf> for Node {
    fn from(value: Leaf) -> (r: Self) {
        Node::Leaf(value)
    }
}

impl FromSpecImpl<Leaf> for Node {
    open spec fn obeys_from_spec() -> bool {
        true
    }

    open spec fn from_spec(value: Leaf) -> Node {
        Node::Leaf(value)
    }
}

impl From<Internal> for Node {
    fn from(value: Internal) -> (r: Self) {
        Node::Internal(value)
    }
}

impl FromSpecImpl<Internal> for Node {
    open spec fn obeys_from_spec() -> bool {
        true
    }

    open spec fn from_spec(value: Internal) -> Node {
        Node::Internal(value)
    }
}

} // verus!
