//! The format of pages, byte by byte.
use crate::bytes::{bytes_lt, overlay, rank_of, Rank};
use crate::codec::{
    entry_views, first_child, head, image, key_views, lay, legible, lemma_layout, lemma_sub,
    lemma_total, node_of, total, Internal, Leaf, LeafEntry, Node, NodeView,
};
use crate::key::{word_bytes, Key};
use crate::page::{
    child_of, count_of, internal_cell_ok, internal_child, internal_halved, internal_key,
    internal_key_ok, key_len, leaf_cell_ok, leaf_halved, leaf_key, leaf_key_ok, leaf_value, link_of,
    slot_of, slot_ok, value_len,
};
use crate::store::{type_byte, type_of, typed, Page, PageId, PageType};
use std::cmp::Ordering;
use vstd::bytes::{
    lemma_auto_spec_u16_to_from_le_bytes, lemma_auto_spec_u64_to_from_le_bytes,
    spec_u16_from_le_bytes, spec_u16_to_le_bytes, spec_u32_to_le_bytes, spec_u64_to_le_bytes,
};
use vstd::prelude::*;
use vstd::std_specs::cmp::PartialOrdSpec;
use vstd::std_specs::convert::{FromSpec, TryFromSpec};

verus! {

// Keys -----------------------------------------------------------------------------------

/// A key is the bytes that it holds, and keys are ordered like words in a dictionary: at the first
/// place where two differ the smaller byte comes first, and a key comes before those that it
/// begins.
pub proof fn law_key_order(a: Key, b: Key)
    ensures
        a@ == a.0@,
        a.partial_cmp_spec(&b) is Some,
        a.partial_cmp_spec(&b) == Some(Ordering::Equal) <==> a.0@ == b.0@,
        a.partial_cmp_spec(&b) == Some(Ordering::Less) <==> exists|i: int|
            0 <= i <= a.0@.len() && i <= b.0@.len() && #[trigger] a.0@.take(i) == b.0@.take(i) && (if i
                == a.0@.len() {
                i < b.0@.len()
            } else {
                i < b.0@.len() && a.0@[i] < b.0@[i]
            }),
        a.partial_cmp_spec(&b) == Some(Ordering::Greater) <==> b.partial_cmp_spec(&a) == Some(
            Ordering::Less,
        ),
{
    crate::plain::law_dictionary(a@, b@);
    crate::plain::law_rank(a@, b@);
    crate::plain::law_rank(b@, a@);
}

/// A machine word has as many bytes as it is wide, the low byte first.
pub proof fn law_word_bytes(v: usize)
    ensures
        usize::BITS == 64 ==> word_bytes(v) == spec_u64_to_le_bytes(v as u64),
        usize::BITS == 32 ==> word_bytes(v) == spec_u32_to_le_bytes(v as u32),
        word_bytes(v).len() * 8 == usize::BITS,
{
    vstd::bytes::lemma_auto_spec_u32_to_from_le_bytes();
    lemma_auto_spec_u64_to_from_le_bytes();
}

// Types ----------------------------------------------------------------------------------

/// A leaf has the type 1 and an inner node the type 2; no other byte stands for a type.
pub proof fn law_types(b: u8)
    ensures
        type_byte(PageType::Leaf) == 1,
        type_byte(PageType::Internal) == 2,
        type_of(1) == PageType::Leaf,
        type_of(2) == PageType::Internal,
        typed(b) <==> b == 1 || b == 2,
{
}

/// A node in mathematical terms holds what its fields hold.
pub proof fn law_views(
    page: Page,
    e: Seq<LeafEntry>,
    k: Seq<Key>,
    leaf: Leaf,
    inner: Internal,
    i: int,
)
    ensures
        page@ == page.0@,
        entry_views(e).len() == e.len(),
        0 <= i < e.len() ==> entry_views(e)[i] == (e[i].key.0@, e[i].value@),
        key_views(k).len() == k.len(),
        0 <= i < k.len() ==> key_views(k)[i] == k[i].0@,
        Node::Leaf(leaf)@ == NodeView::Leaf(entry_views(leaf.entries@), leaf.next),
        Node::Internal(inner)@ == NodeView::Internal(key_views(inner.keys@), inner.children@),
        Node::Leaf(leaf).spec_count() == leaf.entries@.len(),
        Node::Internal(inner).spec_count() == inner.keys@.len(),
{
}

// Writing --------------------------------------------------------------------------------

/// The sizes of the first cells add up.
pub proof fn law_total(cells: Seq<Seq<u8>>, i: int)
    requires
        0 <= i < cells.len(),
    ensures
        total(cells, 0) == 0,
        total(cells, i + 1) == total(cells, i) + cells[i].len(),
{
}

/// How much of a page a node takes up: 16 bytes for the head, and for each entry of a leaf 6 bytes,
/// its key and its value; for each key of an inner node 12 bytes and the key.
pub proof fn law_fits(v: NodeView)
    ensures
        v.fits() <==> 16 + 2 * v.cells().len() + total(v.cells(), v.cells().len() as int) <= 8192,
        v.headed() <==> 16 + total(v.cells(), v.cells().len() as int) <= 8192,
        v.packs() <==> total(v.cells(), v.cells().len() as int) <= 8192,
        match v {
            NodeView::Leaf(e, _) => {
                &&& v.cells().len() == e.len()
                &&& forall|i: int|
                    0 <= i < e.len() ==> (#[trigger] v.cells()[i]).len() == 4 + e[i].0.len()
                        + e[i].1.len()
            },
            NodeView::Internal(k, ch) => {
                &&& v.cells().len() == k.len()
                &&& forall|i: int|
                    0 <= i < k.len() ==> (#[trigger] v.cells()[i]).len() == 10 + k[i].len()
            },
        },
{
    lemma_auto_spec_u16_to_from_le_bytes();
    lemma_auto_spec_u64_to_from_le_bytes();
}

/// A leaf on its page: the byte 1, the number of its entries, where the lowest cell begins, the
/// number of the next leaf or the highest number where there is none, and three zeros; from byte
/// 16 on where each cell begins; zeros; and from the end of the page downwards the cells. A cell
/// is the length of a key, the length of a value, the key and the value.
pub proof fn law_leaf_page(e: Seq<(Seq<u8>, Seq<u8>)>, next: Option<PageId>)
    requires
        NodeView::Leaf(e, next).fits(),
    ensures
        ({
            let v = NodeView::Leaf(e, next);
            let p = v.image();
            let n = e.len() as int;
            &&& p.len() == 8192
            &&& p[0] == 1
            &&& p.subrange(1, 3) == spec_u16_to_le_bytes(n as u16)
            &&& p.subrange(3, 5) == spec_u16_to_le_bytes((8192 - total(v.cells(), n)) as u16)
            &&& p.subrange(5, 13) == spec_u64_to_le_bytes(
                match next {
                    Some(id) => id,
                    None => 0xffff_ffff_ffff_ffff,
                },
            )
            &&& p[13] == 0 && p[14] == 0 && p[15] == 0
            &&& forall|j: int| 16 + 2 * n <= j < 8192 - total(v.cells(), n) ==> #[trigger] p[j] == 0
            &&& forall|i: int|
                0 <= i < n ==> {
                    let at = 8192 - total(v.cells(), i + 1);
                    let (key, value) = #[trigger] e[i];
                    &&& p.subrange(16 + 2 * i, 18 + 2 * i) == spec_u16_to_le_bytes(at as u16)
                    &&& p.subrange(at, at + 2) == spec_u16_to_le_bytes(key.len() as u16)
                    &&& p.subrange(at + 2, at + 4) == spec_u16_to_le_bytes(value.len() as u16)
                    &&& p.subrange(at + 4, at + 4 + key.len()) == key
                    &&& p.subrange(at + 4 + key.len(), at + 4 + key.len() + value.len()) == value
                }
        }),
{
    let v = NodeView::Leaf(e, next);
    let cells = v.cells();
    let p = v.image();
    lemma_layout(1, v.link(), cells);
    law_fits(v);
    lemma_auto_spec_u16_to_from_le_bytes();
    assert forall|i: int| 0 <= i < e.len() implies ({
        let at = 8192 - total(v.cells(), i + 1);
        let (key, value) = #[trigger] e[i];
        &&& p.subrange(16 + 2 * i, 18 + 2 * i) == spec_u16_to_le_bytes(at as u16)
        &&& p.subrange(at, at + 2) == spec_u16_to_le_bytes(key.len() as u16)
        &&& p.subrange(at + 2, at + 4) == spec_u16_to_le_bytes(value.len() as u16)
        &&& p.subrange(at + 4, at + 4 + key.len()) == key
        &&& p.subrange(at + 4 + key.len(), at + 4 + key.len() + value.len()) == value
    }) by {
        let at = 8192 - total(cells, i + 1);
        let c = cells[i];
        let (key, value) = e[i];
        let a = key.len() as int;
        let b = value.len() as int;
        assert(crate::codec::laid(p, cells, i));
        lemma_total(cells, i + 1, cells.len() as int);
        assert(c.len() == 4 + a + b);
        assert(total(cells, i + 1) == total(cells, i) + c.len());
        lemma_sub(p, at, c, 0, 2);
        lemma_sub(p, at, c, 2, 4);
        lemma_sub(p, at, c, 4, 4 + a);
        lemma_sub(p, at, c, 4 + a, 4 + a + b);
        assert(c.subrange(0, 2) =~= spec_u16_to_le_bytes(a as u16));
        assert(c.subrange(2, 4) =~= spec_u16_to_le_bytes(b as u16));
        assert(c.subrange(4, 4 + a) =~= key);
        assert(c.subrange(4 + a, 4 + a + b) =~= value);
    }
}

/// An inner node on its page: the byte 2, the number of its keys, where the lowest cell begins,
/// the number of the leftmost child or the highest number where there is none, and three zeros;
/// from byte 16 on where each cell begins; zeros; and from the end of the page downwards the
/// cells. A cell is the length of a key, the key and the number of the child to its right.
pub proof fn law_internal_page(k: Seq<Seq<u8>>, ch: Seq<PageId>)
    requires
        NodeView::Internal(k, ch).fits(),
        k.len() == 0 || ch.len() > k.len(),
    ensures
        ({
            let v = NodeView::Internal(k, ch);
            let p = v.image();
            let n = k.len() as int;
            &&& p.len() == 8192
            &&& p[0] == 2
            &&& p.subrange(1, 3) == spec_u16_to_le_bytes(n as u16)
            &&& p.subrange(3, 5) == spec_u16_to_le_bytes((8192 - total(v.cells(), n)) as u16)
            &&& p.subrange(5, 13) == spec_u64_to_le_bytes(
                if ch.len() > 0 {
                    ch[0]
                } else {
                    0xffff_ffff_ffff_ffff
                },
            )
            &&& p[13] == 0 && p[14] == 0 && p[15] == 0
            &&& forall|j: int| 16 + 2 * n <= j < 8192 - total(v.cells(), n) ==> #[trigger] p[j] == 0
            &&& forall|i: int|
                0 <= i < n ==> {
                    let at = 8192 - total(v.cells(), i + 1);
                    let key = #[trigger] k[i];
                    &&& p.subrange(16 + 2 * i, 18 + 2 * i) == spec_u16_to_le_bytes(at as u16)
                    &&& p.subrange(at, at + 2) == spec_u16_to_le_bytes(key.len() as u16)
                    &&& p.subrange(at + 2, at + 2 + key.len()) == key
                    &&& p.subrange(at + 2 + key.len(), at + 10 + key.len())
                        == spec_u64_to_le_bytes(ch[i + 1])
                }
        }),
{
    let v = NodeView::Internal(k, ch);
    let cells = v.cells();
    let p = v.image();
    lemma_layout(2, v.link(), cells);
    law_fits(v);
    lemma_auto_spec_u16_to_from_le_bytes();
    lemma_auto_spec_u64_to_from_le_bytes();
    assert forall|i: int| 0 <= i < k.len() implies ({
        let at = 8192 - total(v.cells(), i + 1);
        let key = #[trigger] k[i];
        &&& p.subrange(16 + 2 * i, 18 + 2 * i) == spec_u16_to_le_bytes(at as u16)
        &&& p.subrange(at, at + 2) == spec_u16_to_le_bytes(key.len() as u16)
        &&& p.subrange(at + 2, at + 2 + key.len()) == key
        &&& p.subrange(at + 2 + key.len(), at + 10 + key.len()) == spec_u64_to_le_bytes(ch[i + 1])
    }) by {
        let at = 8192 - total(cells, i + 1);
        let c = cells[i];
        let a = k[i].len() as int;
        assert(crate::codec::laid(p, cells, i));
        lemma_total(cells, i + 1, cells.len() as int);
        assert(c.len() == 10 + a);
        assert(total(cells, i + 1) == total(cells, i) + c.len());
        lemma_sub(p, at, c, 0, 2);
        lemma_sub(p, at, c, 2, 2 + a);
        lemma_sub(p, at, c, 2 + a, 10 + a);
        assert(c.subrange(0, 2) =~= spec_u16_to_le_bytes(a as u16));
        assert(c.subrange(2, 2 + a) =~= k[i]);
        assert(c.subrange(2 + a, 10 + a) =~= spec_u64_to_le_bytes(ch[i + 1]));
    }
}

/// A page is written front to back: first the head, then for each cell in turn its bytes, below
/// those of the cell before it, and its slot, and in the end where the lowest cell begins. What is
/// written later stands over what was written before, where the slots reach into the cells.
pub proof fn law_written_in_turn(kind: u8, link: PageId, cells: Seq<Seq<u8>>, p: Seq<u8>, i: int)
    requires
        0 <= i < cells.len(),
    ensures
        lay(p, cells, 0) == p,
        lay(p, cells, i + 1) == overlay(
            overlay(lay(p, cells, i), 8192 - total(cells, i + 1), cells[i]),
            16 + 2 * i,
            spec_u16_to_le_bytes((8192 - total(cells, i + 1)) as u16),
        ),
        head(kind, link, i) == seq![kind] + spec_u16_to_le_bytes(i as u16) + seq![0u8, 0u8]
            + spec_u64_to_le_bytes(link) + Seq::new(8179, |j: int| 0u8),
        image(kind, link, cells) == overlay(
            lay(head(kind, link, cells.len() as int), cells, cells.len() as int),
            3,
            spec_u16_to_le_bytes((8192 - total(cells, cells.len() as int)) as u16),
        ),
{
    lemma_auto_spec_u16_to_from_le_bytes();
    lemma_auto_spec_u64_to_from_le_bytes();
    assert(head(kind, link, i) =~= seq![kind] + spec_u16_to_le_bytes(i as u16) + seq![0u8, 0u8]
        + spec_u64_to_le_bytes(link) + Seq::new(8179, |j: int| 0u8));
}

/// The cells of a node and what its head says: the length of a key, the length of a value, the key
/// and the value for an entry of a leaf; the length of a key, the key and the child to its right for
/// an inner node.
pub proof fn law_cells(v: NodeView, i: int)
    requires
        0 <= i < v.cells().len(),
    ensures
        match v {
            NodeView::Leaf(e, next) => {
                &&& v.cells()[i] == spec_u16_to_le_bytes(e[i].0.len() as u16) + spec_u16_to_le_bytes(
                    e[i].1.len() as u16,
                ) + e[i].0 + e[i].1
                &&& v.image() == image(
                    1,
                    match next {
                        Some(id) => id,
                        None => 0xffff_ffff_ffff_ffff,
                    },
                    v.cells(),
                )
            },
            NodeView::Internal(k, ch) => {
                &&& v.cells()[i] == spec_u16_to_le_bytes(k[i].len() as u16) + k[i]
                    + spec_u64_to_le_bytes(ch[i + 1])
                &&& ch.len() > 0 ==> v.image() == image(2, ch[0], v.cells())
            },
        },
{
}

/// A node goes into a node of either kind and comes back out of it, if it is of the kind asked for.
pub proof fn law_kinds(leaf: Leaf, inner: Internal)
    ensures
        <Node as FromSpec<Leaf>>::from_spec(leaf) == Node::Leaf(leaf),
        <Node as FromSpec<Internal>>::from_spec(inner) == Node::Internal(inner),
        <Leaf as TryFromSpec<Node>>::try_from_spec(Node::Leaf(leaf)) == Ok::<Leaf, &'static str>(leaf),
        <Internal as TryFromSpec<Node>>::try_from_spec(Node::Internal(inner)) == Ok::<
            Internal,
            &'static str,
        >(inner),
        <Leaf as TryFromSpec<Node>>::try_from_spec(Node::Internal(inner)) is Err,
        <Internal as TryFromSpec<Node>>::try_from_spec(Node::Leaf(leaf)) is Err,
        <u8 as FromSpec<PageType>>::from_spec(PageType::Leaf) == 1,
        <u8 as FromSpec<PageType>>::from_spec(PageType::Internal) == 2,
{
}

// Reading --------------------------------------------------------------------------------

/// What is read from the bytes of a page: the number of its cells from bytes 1 and 2, the page in
/// its head from bytes 5 to 12, and where cell `i` begins from the two bytes at 16 and twice `i`.
pub proof fn law_page_head(p: Seq<u8>, i: int)
    requires
        p.len() == 8192,
        0 <= i < 4088,
    ensures
        spec_u16_to_le_bytes(count_of(p)) == p.subrange(1, 3),
        spec_u64_to_le_bytes(link_of(p)) == p.subrange(5, 13),
        spec_u16_to_le_bytes(slot_of(p, i)) == p.subrange(16 + 2 * i, 18 + 2 * i),
        child_of(p, 0) == link_of(p),
        child_of(p, i + 1) == internal_child(p, i),
        link_of(p) == 0xffff_ffff_ffff_ffff ==> first_child(p) == Seq::<PageId>::empty(),
        link_of(p) != 0xffff_ffff_ffff_ffff ==> first_child(p) == seq![link_of(p)],
{
    lemma_auto_spec_u16_to_from_le_bytes();
    lemma_auto_spec_u64_to_from_le_bytes();
}

/// What is read from a leaf's cell: `k` and `l` are the lengths that its first four bytes give.
pub proof fn law_leaf_cell_read(p: Seq<u8>, i: int, k: u16, l: u16)
    requires
        p.len() == 8192,
        0 <= i < 4088,
        slot_of(p, i) + 4 + k + l <= 8192,
        p.subrange(slot_of(p, i) as int, slot_of(p, i) + 2) == spec_u16_to_le_bytes(k),
        p.subrange(slot_of(p, i) + 2, slot_of(p, i) + 4) == spec_u16_to_le_bytes(l),
    ensures
        leaf_cell_ok(p, i),
        leaf_key_ok(p, i),
        leaf_key(p, i).len() == k,
        leaf_value(p, i).len() == l,
        leaf_key(p, i) + leaf_value(p, i) == p.subrange(slot_of(p, i) + 4, slot_of(p, i) + 4 + k + l),
{
    lemma_auto_spec_u16_to_from_le_bytes();
    let at = slot_of(p, i) as int;
    assert(spec_u16_to_le_bytes(k).len() == 2);
    assert(key_len(p, at) == spec_u16_from_le_bytes(spec_u16_to_le_bytes(k)));
    assert(spec_u16_to_le_bytes(l).len() == 2);
    assert(value_len(p, at) == spec_u16_from_le_bytes(spec_u16_to_le_bytes(l)));
    assert(leaf_key(p, i) + leaf_value(p, i) =~= p.subrange(at + 4, at + 4 + k + l));
}

/// What is read from an inner node's cell: `k` is the length that its first two bytes give.
pub proof fn law_internal_cell_read(p: Seq<u8>, i: int, k: u16)
    requires
        p.len() == 8192,
        0 <= i < 4088,
        slot_of(p, i) + 10 + k <= 8192,
        p.subrange(slot_of(p, i) as int, slot_of(p, i) + 2) == spec_u16_to_le_bytes(k),
    ensures
        internal_cell_ok(p, i),
        internal_key_ok(p, i),
        internal_key(p, i) == p.subrange(slot_of(p, i) + 2, slot_of(p, i) + 2 + k),
        spec_u64_to_le_bytes(internal_child(p, i)) == p.subrange(
            slot_of(p, i) + 2 + k,
            slot_of(p, i) + 10 + k,
        ),
{
    lemma_auto_spec_u16_to_from_le_bytes();
    lemma_auto_spec_u64_to_from_le_bytes();
    let at = slot_of(p, i) as int;
    assert(spec_u16_to_le_bytes(k).len() == 2);
    assert(key_len(p, at) == spec_u16_from_le_bytes(spec_u16_to_le_bytes(k)));
}

/// Which cells lie on their page.
pub proof fn law_cells_ok(p: Seq<u8>, i: int)
    requires
        p.len() == 8192,
    ensures
        slot_ok(i) <==> 0 <= i < 4088,
        leaf_cell_ok(p, i) <==> 0 <= i < 4088 && slot_of(p, i) + 4 + spec_u16_from_le_bytes(
            p.subrange(slot_of(p, i) as int, slot_of(p, i) + 2),
        ) + spec_u16_from_le_bytes(p.subrange(slot_of(p, i) + 2, slot_of(p, i) + 4)) <= 8192,
        leaf_key_ok(p, i) <==> 0 <= i < 4088 && slot_of(p, i) + 4 + spec_u16_from_le_bytes(
            p.subrange(slot_of(p, i) as int, slot_of(p, i) + 2),
        ) <= 8192,
        internal_cell_ok(p, i) <==> 0 <= i < 4088 && slot_of(p, i) + 10 + spec_u16_from_le_bytes(
            p.subrange(slot_of(p, i) as int, slot_of(p, i) + 2),
        ) <= 8192,
        internal_key_ok(p, i) <==> 0 <= i < 4088 && slot_of(p, i) + 2 + spec_u16_from_le_bytes(
            p.subrange(slot_of(p, i) as int, slot_of(p, i) + 2),
        ) <= 8192,
{
}

/// A page is legible if its first byte is a type and every cell that it says it has lies on it.
pub proof fn law_legible(p: Seq<u8>)
    requires
        p.len() == 8192,
    ensures
        p[0] != 1 && p[0] != 2 ==> !legible(p),
        p[0] == 1 ==> (legible(p) <==> forall|i: int|
            0 <= i < count_of(p) ==> #[trigger] leaf_cell_ok(p, i)),
        p[0] == 2 ==> (legible(p) <==> forall|i: int|
            0 <= i < count_of(p) ==> #[trigger] internal_cell_ok(p, i)),
{
}

/// The node that a page holds: a leaf or an inner node by its first byte, its cells in the order of
/// their slots; the highest number in the head stands for no page.
pub proof fn law_node_of(p: Seq<u8>, i: int)
    requires
        p.len() == 8192,
        legible(p),
    ensures
        match node_of(p) {
            NodeView::Leaf(e, next) => {
                &&& p[0] == 1
                &&& e.len() == count_of(p)
                &&& 0 <= i < e.len() ==> e[i] == (leaf_key(p, i), leaf_value(p, i))
                &&& link_of(p) == 0xffff_ffff_ffff_ffff ==> next == None::<PageId>
                &&& link_of(p) != 0xffff_ffff_ffff_ffff ==> next == Some(link_of(p))
            },
            NodeView::Internal(k, ch) => {
                &&& p[0] == 2
                &&& k.len() == count_of(p)
                &&& 0 <= i < k.len() ==> k[i] == internal_key(p, i)
                &&& link_of(p) == 0xffff_ffff_ffff_ffff ==> ch.len() == k.len() && (0 <= i < k.len()
                    ==> ch[i] == internal_child(p, i))
                &&& link_of(p) != 0xffff_ffff_ffff_ffff ==> ch.len() == k.len() + 1 && (0 <= i
                    <= k.len() ==> ch[i] == child_of(p, i))
            },
        },
{
}

// Looking a key up -----------------------------------------------------------------------

/// A lookup in a leaf whose keys rise finds the key where it is, and else the place where it
/// belongs: behind the smaller keys and before the greater ones.
pub proof fn law_leaf_lookup(p: Seq<u8>, key: Seq<u8>, l: int, r: int)
    requires
        0 <= l <= r,
        forall|i: int, j: int|
            l <= i < j < r ==> bytes_lt(#[trigger] leaf_key(p, i), #[trigger] leaf_key(p, j)),
    ensures
        match leaf_halved(p, key, l, r) {
            Ok(i) => l <= i < r && leaf_key(p, i) == key,
            Err(i) => {
                &&& l <= i <= r
                &&& forall|j: int| l <= j < i ==> bytes_lt(#[trigger] leaf_key(p, j), key)
                &&& forall|j: int| i <= j < r ==> bytes_lt(key, #[trigger] leaf_key(p, j))
            },
        },
    decreases r - l,
{
    crate::bytes::lemma_bytes_order();
    if l < r {
        let mid = l + (r - l) / 2;
        crate::plain::law_rank(leaf_key(p, mid), key);
        if rank_of(leaf_key(p, mid), key) == Rank::Below {
            law_leaf_lookup(p, key, mid + 1, r);
            assert forall|j: int| l <= j < mid implies bytes_lt(#[trigger] leaf_key(p, j), key) by {
                assert(bytes_lt(leaf_key(p, j), leaf_key(p, mid)));
            }
        } else if rank_of(leaf_key(p, mid), key) == Rank::Above {
            law_leaf_lookup(p, key, l, mid);
            assert forall|j: int| mid < j < r implies bytes_lt(key, #[trigger] leaf_key(p, j)) by {
                assert(bytes_lt(leaf_key(p, mid), leaf_key(p, j)));
            }
        }
    }
}

/// A lookup in an inner node whose keys rise finds the first key that is not below the one asked
/// for.
pub proof fn law_internal_lookup(p: Seq<u8>, key: Seq<u8>, l: int, r: int)
    requires
        0 <= l <= r,
        forall|i: int, j: int|
            l <= i < j < r ==> bytes_lt(#[trigger] internal_key(p, i), #[trigger] internal_key(p, j)),
    ensures
        l <= internal_halved(p, key, l, r) <= r,
        forall|j: int|
            l <= j < internal_halved(p, key, l, r) ==> bytes_lt(#[trigger] internal_key(p, j), key),
        forall|j: int|
            internal_halved(p, key, l, r) <= j < r ==> !bytes_lt(#[trigger] internal_key(p, j), key),
    decreases r - l,
{
    crate::bytes::lemma_bytes_order();
    if l < r {
        let mid = l + (r - l) / 2;
        crate::plain::law_rank(internal_key(p, mid), key);
        if rank_of(internal_key(p, mid), key) == Rank::Below {
            law_internal_lookup(p, key, mid + 1, r);
            assert forall|j: int| l <= j < mid implies bytes_lt(
                #[trigger] internal_key(p, j),
                key,
            ) by {
                assert(bytes_lt(internal_key(p, j), internal_key(p, mid)));
            }
        } else {
            law_internal_lookup(p, key, l, mid);
            assert forall|j: int| mid < j < r implies !bytes_lt(
                #[trigger] internal_key(p, j),
                key,
            ) by {
                assert(bytes_lt(internal_key(p, mid), internal_key(p, j)));
            }
        }
    }
}

/// A lookup looks at the cell in the middle, goes on to the right of a cell with a smaller key and to
/// the left of one with a greater key, and ends at one with the key or where nothing is left.
pub proof fn law_halving(p: Seq<u8>, key: Seq<u8>, l: int, r: int)
    requires
        0 <= l,
    ensures
        l >= r ==> leaf_halved(p, key, l, r) == Err::<int, int>(l) && internal_halved(p, key, l, r) == l,
        l < r ==> {
            let mid = (l + r) / 2;
            &&& leaf_key(p, mid) == key ==> leaf_halved(p, key, l, r) == Ok::<int, int>(mid)
            &&& bytes_lt(leaf_key(p, mid), key) ==> leaf_halved(p, key, l, r) == leaf_halved(
                p,
                key,
                mid + 1,
                r,
            )
            &&& bytes_lt(key, leaf_key(p, mid)) ==> leaf_halved(p, key, l, r) == leaf_halved(
                p,
                key,
                l,
                mid,
            )
            &&& bytes_lt(internal_key(p, mid), key) ==> internal_halved(p, key, l, r)
                == internal_halved(p, key, mid + 1, r)
            &&& !bytes_lt(internal_key(p, mid), key) ==> internal_halved(p, key, l, r)
                == internal_halved(p, key, l, mid)
        },
{
    let mid = (l + r) / 2;
    crate::plain::law_rank(leaf_key(p, mid), key);
    crate::plain::law_rank(internal_key(p, mid), key);
    if l < r {
        assert(l + (r - l) / 2 == mid);
    }
}

} // verus!
