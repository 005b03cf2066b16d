//! A B+ tree on pages.
use crate::bytes::{bytes_le, bytes_lt, compare, lemma_bytes_order, Rank};
use crate::bytetree::{
    begin, can_deal, can_edit, can_insert, can_ready, can_rebalance, can_remove, can_split, changed,
    dealt, dealt_pages, edit, edit_leaf, edit_pages, fences, found, get, halved, headed,
    insert_height, insert_pages, insert_starved, inserted, joined, left_route, lemma_begin,
    lemma_dealt, lemma_edit, lemma_edit_len, lemma_joined, lemma_left_route, lemma_left_route_is,
    lemma_not_starved, lemma_part_neat, lemma_place, lemma_readied, lemma_right_route,
    lemma_split_root, lemma_trimmed, load, looked_up, neat, next_child, open_way, packed, page_view,
    part, part_fences, parts, parts_go, place, readied, rebalanced, removed, removed_height,
    right_route, rising, roomy, seek, sorted_tree, split_at, split_root, starved, tail_from, target,
    tense, window_left, window_pages_moved, window_right, window_target, within, ByteTree, Entry,
};
use crate::codec::{
    entry_views, first_child, is_legible, key_views, legible, lemma_fits_remove, lemma_head,
    lemma_round_trip, node_of, NodeView,
};
pub use crate::codec::{Internal, Leaf, LeafEntry, Node};
pub use crate::key::Key;
pub use crate::cursor::Bound;
use crate::medium::{tally, Asked, Medium};
use crate::paged::{
    after, alike, apart, bare_row, dealt_row, joined_views, kid_row, leaf_entries, leaves,
    left_tree, lemma_bare, lemma_dealt_apart, lemma_dealt_first, lemma_dealt_linked,
    lemma_dealt_stored, lemma_half_shapes, lemma_kids_stored, lemma_leaves, lemma_leaves_at,
    lemma_leaves_neat, lemma_over_halves, lemma_parts, lemma_rebuilt_child, lemma_rebuilt_node,
    lemma_rebuilt_twice, lemma_roomy, lemma_row_leaves, lemma_written, over_halves, paged_parts,
    part_view, rebuilt, rebuilt_tree, rest_at, right_tree, row_ids, row_leaves, row_linked,
    row_owns, row_stored, spares_window, window, window_ids, window_kids, PagedTree,
};
use crate::outline::{keys_of, lines_of, lines_of_row, LineSpec};
use crate::page::{
    child_of, count_of, internal_key, leaf_cell_ok, leaf_halved, leaf_key, leaf_key_ok, leaf_ok,
    leaf_value, link_of, SlottedPage,
};
use crate::pool::{BpmError, BufferPoolManager, ReadGuard, WriteGuard};
use crate::store::{typed, NULL_PAGE, PAGE_SIZE, Page, PageId};
use crate::tree::{child_hi, child_lo, cut, flat, lemma_flat_at, lemma_flat_concat, Tree};
use crate::window::{
    can_deal_view, deal, dealable, fence_view, join_nodes, joined_pages, left_half,
    lemma_joined_pages, lemma_part_dealable, lemma_parts_fit, lone_part, neighbours, node_at,
    page_load, part_fits, part_ids, part_pages, parts_hold, right_half, same_kind, split_node,
    view_count,
};
use vstd::pervasive::unreached;
use vstd::prelude::*;
use vstd::slice::slice_to_vec;

verus! {

/// Why an operation on a tree failed. A tree that a change has failed on is not to be used any
/// more; after a lookup or a walk that failed it is as it was.
#[derive(Debug)]
pub enum TreeError<E> {
    /// A page could not be had.
    Pool(BpmError<E>),
    /// The cells of a node have no room on a page, or its slots reach into them and the page would
    /// have to be read again at once.
    PageFull,
    /// A page was read that holds no node.
    Unreadable,
    /// A leaf without entries would need a separator to its left.
    EmptyLeaf,
}

pub struct BPlusTree<M: Medium> {
    t: usize,
    root: PageId,
    len: usize,
    tidy: bool,
    pool: BufferPoolManager<M>,
    shape: Ghost<PagedTree>,
    height: Ghost<nat>,
}

/// Nobody holds page `id`.
pub open spec fn unheld<M: Medium>(pool: &BufferPoolManager<M>, id: PageId) -> bool {
    forall|f: int| 0 <= f < pool.frames() && #[trigger] pool.pins()[f] > 0 ==> pool.at(f) != Some(id)
}

/// A page can be asked for without fail.
pub open spec fn calm<M: Medium>(pool: &BufferPoolManager<M>) -> bool {
    pool.reliable() && pool.held() < pool.frames()
}

/// The node that the frame holds that is set aside for page `id`, if it holds one.
pub open spec fn held_for<M: Medium>(pool: &BufferPoolManager<M>, id: PageId) -> Option<NodeView> {
    let b = pool.bytes_at(pool.place(id));
    if legible(b) {
        Some(node_of(b))
    } else {
        None
    }
}

/// Which children of a node an operation comes by.
pub enum Way {
    /// A lookup of a key.
    To(Seq<u8>),
    /// A walk from a key on.
    From(Seq<u8>),
    /// A walk from the first entry on.
    First,
    /// Everything.
    All,
}

impl Way {
    /// The way goes by child `i` of a node with these keys.
    pub open spec fn takes(self, keys: Seq<Seq<u8>>, i: int) -> bool {
        match self {
            Way::To(k) => i == left_route(keys, k),
            Way::From(k) => i == right_route(keys, k),
            Way::First => i == 0,
            Way::All => true,
        }
    }
}

/// The nodes on the way fit on their pages, so that they can be read back.
pub open spec fn neat_way(m: ByteTree, w: Way) -> bool
    decreases m,
{
    &&& roomy(m)
    &&& m matches Tree::Internal(keys, ch) ==> forall|i: int|
        0 <= i < ch.len() && w.takes(keys, i) ==> neat_way(#[trigger] ch[i], w)
}

/// Where all nodes fit on their pages, those on any way do.
pub proof fn lemma_neat_way(m: ByteTree, w: Way)
    requires
        neat(m),
    ensures
        neat_way(m, w),
    decreases m,
{
    if let Tree::Internal(keys, ch) = m {
        assert forall|i: int| 0 <= i < ch.len() && w.takes(keys, i) implies neat_way(#[trigger] ch[i], w) by {
            lemma_neat_way(ch[i], w);
        }
    }
}

/// No page on the way is one that could not be brought in before.
pub open spec fn clear<M: Medium>(m: PagedTree, w: Way, pool: &BufferPoolManager<M>) -> bool
    decreases m,
{
    &&& !pool.stale(m.id())
    &&& m matches PagedTree::Node(_, keys, ch) ==> forall|i: int|
        0 <= i < ch.len() && w.takes(keys, i) ==> clear(#[trigger] ch[i], w, pool)
}

proof fn lemma_clear<M: Medium>(
    m: PagedTree,
    w: Way,
    a: &BufferPoolManager<M>,
    b: &BufferPoolManager<M>,
)
    requires
        clear(m, w, b),
        forall|j: PageId| #[trigger] a.stale(j) ==> b.stale(j),
    ensures
        clear(m, w, a),
    decreases m,
{
    if let PagedTree::Node(_, keys, ch) = m {
        assert forall|i: int| 0 <= i < ch.len() && w.takes(keys, i) implies clear(#[trigger] ch[i], w, a) by {
            lemma_clear(ch[i], w, a, b);
        }
    }
}

proof fn lemma_whole_clear<M: Medium>(m: PagedTree, w: Way, pool: &BufferPoolManager<M>)
    requires
        pool.whole(),
    ensures
        clear(m, w, pool),
    decreases m,
{
    pool.lemma_whole(m.id());
    if let PagedTree::Node(_, keys, ch) = m {
        assert forall|i: int| 0 <= i < ch.len() && w.takes(keys, i) implies clear(
            #[trigger] ch[i],
            w,
            pool,
        ) by {
            lemma_whole_clear(ch[i], w, pool);
        }
    }
}

/// The pool did not bring page `id` in, for the reason `e`: the pages and guards are as they were,
/// and the error is that of the request that failed.
pub open spec fn denied<M: Medium>(
    pool: &BufferPoolManager<M>,
    o: &BufferPoolManager<M>,
    id: PageId,
    e: BpmError<M::Error>,
) -> bool {
    &&& intact(pool, o)
    &&& pool.fetched(o, id, Err(e))
    &&& forall|j: PageId| #[trigger] pool.stale(j) ==> o.stale(j) || j == id
    &&& match e {
        BpmError::BufferFull => o.full() && !o.tabled(id) && (o.whole() ==> pool.whole()),
        BpmError::Medium(x) => {
            &&& !o.reliable() || !o.pages().contains_key(id)
            &&& o.records() ==> pool.blames(x)
        },
    }
}

/// The pool did not get a page for a new node, for the reason `e`: the pages that were there are as
/// they were, and the error is that of the request that failed.
pub open spec fn no_page<M: Medium>(
    pool: &BufferPoolManager<M>,
    o: &BufferPoolManager<M>,
    e: BpmError<M::Error>,
) -> bool {
    &&& kept(pool, o)
    &&& forall|x: PageId| #[trigger]
        o.pages().contains_key(x) ==> pool.pages().contains_key(x) && pool.pages()[x] == o.pages()[x]
    &&& match e {
        BpmError::BufferFull => o.full(),
        BpmError::Medium(x) => !o.reliable() && (o.records() ==> pool.blames(x)),
    }
}

/// The medium has handed out `n.0` pages and taken back `n.1` since `o`.
pub open spec fn moved<M: Medium>(
    pool: &BufferPoolManager<M>,
    o: &BufferPoolManager<M>,
    n: (nat, nat),
) -> bool {
    &&& pool.records() == o.records()
    &&& o.records() ==> {
        &&& tally(pool.asked()).0 == tally(o.asked()).0 + n.0
        &&& tally(pool.asked()).1 == tally(o.asked()).1 + n.1
    }
}

/// The medium was asked for a page first, and `r` follows from its answer: its error where it gave
/// none, its page where it gave one, and `BufferFull` where there is no frame for that.
pub open spec fn page_sought<M: Medium>(
    pool: &BufferPoolManager<M>,
    o: &BufferPoolManager<M>,
    r: Result<PageId, BpmError<M::Error>>,
) -> bool {
    let n = o.asked().len() as int;
    o.records() ==> {
        &&& o.asked().is_prefix_of(pool.asked())
        &&& pool.asked().len() > n
        &&& pool.asked()[n] matches Asked::Allocate(a) && match a {
            Err(e) => r == Err::<PageId, BpmError<M::Error>>(BpmError::Medium(e)),
            Ok(id) => {
                &&& r matches Ok(x) ==> x == id
                &&& o.full() ==> r == Err::<PageId, BpmError<M::Error>>(BpmError::BufferFull)
            },
        }
    }
}

/// The guards, and what is in the frames that are held, are as they were.
pub open spec fn kept<M: Medium>(pool: &BufferPoolManager<M>, o: &BufferPoolManager<M>) -> bool {
    &&& pool.wf()
    &&& pool.reliable() == o.reliable()
    &&& pool.pins() == o.pins()
    &&& pool.touched() == o.touched()
    &&& pool.keeps(o)
}

/// The pages and the guards are as they were.
pub open spec fn intact<M: Medium>(pool: &BufferPoolManager<M>, o: &BufferPoolManager<M>) -> bool {
    &&& kept(pool, o)
    &&& pool.room() == o.room()
    &&& pool.pages() == o.pages()
    &&& o.plain() ==> pool.plain()
}

proof fn lemma_kept<M: Medium>(
    a: &BufferPoolManager<M>,
    b: &BufferPoolManager<M>,
    c: &BufferPoolManager<M>,
)
    requires
        kept(a, b),
        kept(b, c),
    ensures
        kept(a, c),
{
    assert forall|g: int| 0 <= g < c.frames() && c.pins()[g] > 0 implies a.at(g) == c.at(g)
        && a.bytes_at(g) == c.bytes_at(g) by {
        assert(b.at(g) == c.at(g));
        assert(b.bytes_at(g) == c.bytes_at(g));
    }
}

/// An operation has given up: nobody holds a page.
pub open spec fn let_down<M: Medium>(pool: &BufferPoolManager<M>, o: &BufferPoolManager<M>) -> bool {
    &&& pool.wf()
    &&& idle(pool)
    &&& pool.frames() == o.frames()
    &&& pool.reliable() == o.reliable()
}

impl<M: Medium> BPlusTree<M> {
    /// Fetches a page and unpacks it.
    pub(crate) fn read_node(
        pool: &mut BufferPoolManager<M>,
        id: PageId,
    ) -> (r: Result<Node, TreeError<M::Error>>)
        requires
            old(pool).wf(),
            old(pool).held() < u32::MAX,
            old(pool).pages().contains_key(id),
            !old(pool).stale(id),
            legible(old(pool).pages()[id]),
        ensures
            r matches Ok(node) ==> {
                &&& old(pool).whole() ==> final(pool).quiet(old(pool))
                &&& moved(final(pool), old(pool), (0, 0))
                &&& final(pool).wf()
                &&& final(pool).reliable() == old(pool).reliable()
                &&& final(pool).pins() == old(pool).pins()
                &&& final(pool).touched() == old(pool).touched()
                &&& final(pool).keeps(old(pool))
                &&& forall|j: PageId| #[trigger] final(pool).stale(j) ==> old(pool).stale(j)
                &&& old(pool).plain() ==> final(pool).plain()
                &&& final(pool).pages() == old(pool).pages()
                &&& final(pool).room() == old(pool).room()
                &&& forall|n: nat| #[trigger] final(pool).upcoming(n) == old(pool).upcoming(n)
                &&& node@ == node_of(old(pool).pages()[id])
            },
            final(pool).visited(old(pool), id),
            old(pool).whole() && calm(old(pool)) ==> r is Ok,
            r matches Err(e) ==> e is Pool && denied(final(pool), old(pool), id, e->Pool_0),
    {
        proof {
            pool.lemma_frames();
            if pool.whole() && calm(pool) {
                pool.lemma_not_full();
            }
        }
        let guard = match pool.read(id) {
            Ok(guard) => guard,
            Err(e) => {
                return Err(TreeError::Pool(e));
            },
        };
        let ghost f = guard.frame();
        let ghost mid = *pool;
        proof {
            pool.lemma_at(f, id);
            if pool.touched().contains(f) {
                old(pool).lemma_touched(f);
            }
        }
        let node = Node::deserialize(&pool.page(&guard).0);
        pool.release(guard);
        proof {
            assert(pool.pins() =~= old(pool).pins());
            assert forall|g: int| 0 <= g < old(pool).frames() && old(pool).pins()[g] > 0 implies pool.at(
                g,
            ) == old(pool).at(g) && pool.bytes_at(g) == old(pool).bytes_at(g) by {
                assert(mid.at(g) == old(pool).at(g));
                assert(mid.bytes_at(g) == old(pool).bytes_at(g));
            }
        }
        Ok(node)
    }

    /// Fetches a page, whatever the pool has for it, and unpacks it, if it holds a node. For a page
    /// that could not be brought in before, that is what the frame holds that was set aside for it.
    fn read_any(
        pool: &mut BufferPoolManager<M>,
        id: PageId,
    ) -> (r: Result<Node, TreeError<M::Error>>)
        requires
            old(pool).wf(),
            old(pool).held() < u32::MAX,
        ensures
            intact(final(pool), old(pool)),
            moved(final(pool), old(pool), (0, 0)),
            final(pool).visited(old(pool), id),
            forall|j: PageId| #[trigger] final(pool).stale(j) ==> old(pool).stale(j) || j == id,
            r matches Err(e) ==> e is Pool || e is Unreadable,
            r matches Err(TreeError::Pool(e)) ==> denied(final(pool), old(pool), id, e),
            old(pool).stale(id) ==> match held_for(old(pool), id) {
                Some(v) => r matches Ok(node) && node@ == v,
                None => r matches Err(e) && e is Unreadable,
            },
            !old(pool).stale(id) && old(pool).pages().contains_key(id) ==> match r {
                Ok(node) => {
                    &&& legible(old(pool).pages()[id])
                    &&& node@ == node_of(old(pool).pages()[id])
                    &&& forall|j: PageId| #[trigger] final(pool).stale(j) ==> old(pool).stale(j)
                    &&& old(pool).whole() ==> final(pool).whole()
                },
                Err(e) => e is Unreadable ==> !legible(old(pool).pages()[id]),
            },
            old(pool).whole() && calm(old(pool)) && old(pool).pages().contains_key(id) && legible(
                old(pool).pages()[id],
            ) ==> r is Ok,
    {
        proof {
            pool.lemma_frames();
            pool.lemma_vacant(id);
            if pool.stale(id) {
                pool.lemma_place(id);
            }
            if pool.whole() {
                pool.lemma_whole(id);
                if calm(pool) {
                    pool.lemma_not_full();
                }
            }
        }
        let guard = match pool.read(id) {
            Ok(guard) => guard,
            Err(e) => {
                return Err(TreeError::Pool(e));
            },
        };
        let ghost f = guard.frame();
        let ghost mid = *pool;
        proof {
            if !old(pool).stale(id) && old(pool).pages().contains_key(id) {
                pool.lemma_at(f, id);
            }
            if pool.touched().contains(f) {
                old(pool).lemma_touched(f);
            }
        }
        let bytes = &pool.page(&guard).0;
        let node = if is_legible(bytes) {
            Some(Node::deserialize(bytes))
        } else {
            None
        };
        pool.release(guard);
        proof {
            assert(pool.pins() =~= old(pool).pins());
            assert forall|g: int| 0 <= g < old(pool).frames() && old(pool).pins()[g] > 0 implies pool.at(
                g,
            ) == old(pool).at(g) && pool.bytes_at(g) == old(pool).bytes_at(g) by {
                assert(mid.at(g) == old(pool).at(g));
                assert(mid.bytes_at(g) == old(pool).bytes_at(g));
            }
            assert(pool.visited(old(pool), id)) by {
                assert(mid.fetched(old(pool), id, Ok(f)));
                assert(pool.let_go(&mid, f));
            }
        }
        match node {
            Some(node) => Ok(node),
            None => Err(TreeError::Unreadable),
        }
    }

    /// Packs a node and writes it to its page.
    pub(crate) fn write_node(
        pool: &mut BufferPoolManager<M>,
        id: PageId,
        node: &Node,
    ) -> (r: Result<(), TreeError<M::Error>>)
        requires
            old(pool).wf(),
            old(pool).whole(),
            old(pool).held() < u32::MAX,
            old(pool).pages().contains_key(id),
            unheld(old(pool), id),
            node@.sound(),
        ensures
            r is Ok ==> {
                &&& final(pool).quiet(old(pool))
                &&& moved(final(pool), old(pool), (0, 0))
                &&& final(pool).pages() == old(pool).pages().insert(id, node@.image())
                &&& final(pool).room() == old(pool).room()
                &&& forall|n: nat| #[trigger] final(pool).upcoming(n) == old(pool).upcoming(n)
                &&& node@.packs()
            },
            calm(old(pool)) && node@.packs() ==> r is Ok,
            r matches Err(e) ==> {
                ||| e is Pool && !calm(old(pool)) && node@.packs() && denied(
                    final(pool),
                    old(pool),
                    id,
                    e->Pool_0,
                )
                ||| e is PageFull && !node@.packs() && *final(pool) == *old(pool)
            },
    {
        proof {
            pool.lemma_whole(id);
            pool.lemma_frames();
            if calm(pool) {
                pool.lemma_not_full();
            }
        }
        if !node.packs() {
            return Err(TreeError::PageFull);
        }
        let guard = match pool.write(id) {
            Ok(guard) => guard,
            Err(e) => {
                return Err(TreeError::Pool(e));
            },
        };
        let ghost f = guard.frame();
        let ghost mid = *pool;
        proof {
            if old(pool).touched().contains(f) {
                old(pool).lemma_touched(f);
                assert(mid.at(f) == old(pool).at(f));
            }
            assert(old(pool).pins()[f] == 0) by {
                if old(pool).pins()[f] > 0 {
                    assert(mid.at(f) == old(pool).at(f));
                }
            }
        }
        pool.set_page(&guard, Page(node.serialize()));
        let ghost mid2 = *pool;
        pool.release_written(guard);
        proof {
            assert(pool.pins() =~= old(pool).pins());
            assert(pool.touched() =~= old(pool).touched());
            assert forall|g: int| 0 <= g < old(pool).frames() && old(pool).pins()[g] > 0 implies pool.at(
                g,
            ) == old(pool).at(g) && pool.bytes_at(g) == old(pool).bytes_at(g) by {
                assert(mid.at(g) == old(pool).at(g));
                assert(mid.bytes_at(g) == old(pool).bytes_at(g));
                assert(mid2.at(g) == mid.at(g));
                assert(mid2.bytes_at(g) == mid.bytes_at(g));
            }
        }
        Ok(())
    }

    /// Gets a page and writes a node to it.
    pub(crate) fn allocate_node(
        pool: &mut BufferPoolManager<M>,
        node: Node,
    ) -> (r: Result<PageId, TreeError<M::Error>>)
        requires
            old(pool).wf(),
            old(pool).whole(),
            old(pool).held() < u32::MAX,
            old(pool).room() > 0,
            node@.sound(),
        ensures
            r matches Ok(id) ==> {
                &&& final(pool).quiet(old(pool))
                &&& moved(final(pool), old(pool), (1, 0))
                &&& !old(pool).pages().contains_key(id)
                &&& id != NULL_PAGE
                &&& id == old(pool).upcoming(0)
                &&& forall|n: nat| #[trigger] final(pool).upcoming(n) == old(pool).upcoming(n + 1)
                &&& final(pool).pages() == old(pool).pages().insert(id, node@.image())
                &&& final(pool).room() + 1 >= old(pool).room()
                &&& node@.packs()
            },
            calm(old(pool)) && node@.packs() ==> r is Ok,
            r matches Err(e) ==> {
                ||| e is Pool && !calm(old(pool)) && node@.packs()
                ||| e is PageFull && !node@.packs() && *final(pool) == *old(pool)
            },
            r matches Err(TreeError::Pool(e)) ==> no_page(final(pool), old(pool), e),
            old(pool).full() ==> r is Err,
            match r {
                Ok(id) => page_sought(final(pool), old(pool), Ok(id)),
                Err(TreeError::Pool(e)) => page_sought(final(pool), old(pool), Err(e)),
                Err(_) => true,
            },
    {
        proof {
            pool.lemma_frames();
            if calm(pool) {
                pool.lemma_not_full();
            }
            assert forall|id: PageId| #[trigger] pool.tabled(id) implies pool.pages().contains_key(id) by {
                pool.lemma_tabled(id);
                let f = choose|f: int| 0 <= f < pool.frames() && #[trigger] pool.at(f) == Some(id);
                pool.lemma_at(f, id);
            }
            assert forall|id: PageId| #[trigger] pool.stale(id) implies pool.pages().contains_key(id) by {
                pool.lemma_whole(id);
            }
        }
        if !node.packs() {
            return Err(TreeError::PageFull);
        }
        let (id, guard) = match pool.allocate() {
            Ok(x) => x,
            Err(e) => {
                return Err(TreeError::Pool(e));
            },
        };
        let ghost f = guard.frame();
        let ghost mid = *pool;
        proof {
            if old(pool).touched().contains(f) {
                old(pool).lemma_touched(f);
            }
            assert(old(pool).pins()[f] == 0) by {
                if old(pool).pins()[f] > 0 {
                    assert(mid.at(f) == old(pool).at(f));
                    old(pool).lemma_at(f, id);
                }
            }
        }
        pool.set_page(&guard, Page(node.serialize()));
        let ghost mid2 = *pool;
        pool.release_written(guard);
        proof {
            assert(pool.pins() =~= old(pool).pins());
            assert(pool.touched() =~= old(pool).touched());
            assert(pool.pages() =~= old(pool).pages().insert(id, node@.image())) by {
                assert(mid.pages().dom() == old(pool).pages().dom().insert(id));
                assert forall|x: PageId| mid.pages().contains_key(x) == (x == id || old(pool).pages().contains_key(x)) by {
                    assert(mid.pages().dom().contains(x) == old(pool).pages().dom().insert(id).contains(x));
                }
            }
            assert forall|g: int| 0 <= g < old(pool).frames() && old(pool).pins()[g] > 0 implies pool.at(
                g,
            ) == old(pool).at(g) && pool.bytes_at(g) == old(pool).bytes_at(g) by {
                assert(mid.at(g) == old(pool).at(g));
                assert(mid.bytes_at(g) == old(pool).bytes_at(g));
                assert(mid2.at(g) == mid.at(g));
                assert(mid2.bytes_at(g) == mid.bytes_at(g));
            }
        }
        Ok(id)
    }

    /// Gets a page for a leaf.
    fn allocate_leaf(pool: &mut BufferPoolManager<M>) -> (r: Result<PageId, TreeError<M::Error>>)
        requires
            old(pool).wf(),
            old(pool).whole(),
            old(pool).held() < u32::MAX,
            old(pool).room() > 0,
        ensures
            r matches Ok(id) ==> {
                &&& final(pool).quiet(old(pool))
                &&& moved(final(pool), old(pool), (1, 0))
                &&& !old(pool).pages().contains_key(id)
                &&& id != NULL_PAGE
                &&& id == old(pool).upcoming(0)
                &&& forall|n: nat| #[trigger] final(pool).upcoming(n) == old(pool).upcoming(n + 1)
                &&& final(pool).pages() == old(pool).pages().insert(
                    id,
                    NodeView::Leaf(Seq::empty(), None).image(),
                )
                &&& final(pool).room() + 1 >= old(pool).room()
            },
            calm(old(pool)) ==> r is Ok,
            r matches Err(e) ==> e is Pool && no_page(final(pool), old(pool), e->Pool_0),
            old(pool).full() ==> r is Err,
            page_sought(
                final(pool),
                old(pool),
                match r {
                    Ok(id) => Ok(id),
                    Err(e) => Err(e->Pool_0),
                },
            ),
    {
        Self::allocate_node(pool, Node::Leaf(Leaf::new()))
    }

    /// Gets a page for an inner node.
    fn allocate_internal(
        pool: &mut BufferPoolManager<M>,
    ) -> (r: Result<PageId, TreeError<M::Error>>)
        requires
            old(pool).wf(),
            old(pool).whole(),
            old(pool).held() < u32::MAX,
            old(pool).room() > 0,
        ensures
            r matches Ok(id) ==> {
                &&& final(pool).quiet(old(pool))
                &&& moved(final(pool), old(pool), (1, 0))
                &&& !old(pool).pages().contains_key(id)
                &&& id != NULL_PAGE
                &&& id == old(pool).upcoming(0)
                &&& forall|n: nat| #[trigger] final(pool).upcoming(n) == old(pool).upcoming(n + 1)
                &&& final(pool).pages() == old(pool).pages().insert(
                    id,
                    NodeView::Internal(Seq::empty(), Seq::empty()).image(),
                )
                &&& final(pool).room() + 1 >= old(pool).room()
            },
            calm(old(pool)) ==> r is Ok,
            r matches Err(e) ==> e is Pool && no_page(final(pool), old(pool), e->Pool_0),
            old(pool).full() ==> r is Err,
            page_sought(
                final(pool),
                old(pool),
                match r {
                    Ok(id) => Ok(id),
                    Err(e) => Err(e->Pool_0),
                },
            ),
    {
        Self::allocate_node(pool, Node::Internal(Internal::new()))
    }

    /// Gives a page back.
    fn free(pool: &mut BufferPoolManager<M>, id: PageId) -> (r: Result<(), TreeError<M::Error>>)
        requires
            old(pool).wf(),
            old(pool).whole(),
            unheld(old(pool), id),
        ensures
            r is Ok ==> {
                &&& final(pool).quiet(old(pool))
                &&& moved(final(pool), old(pool), (0, 1))
                &&& final(pool).pages() == old(pool).pages().remove(id)
                &&& final(pool).room() >= old(pool).room()
            },
            old(pool).reliable() ==> r is Ok,
            r matches Err(e) ==> {
                &&& e is Pool
                &&& e->Pool_0 is Medium
                &&& final(pool).quiet(old(pool))
                &&& final(pool).pages() == old(pool).pages()
                &&& old(pool).records() ==> final(pool).blames(e->Pool_0->Medium_0)
            },
    {
        proof {
            pool.lemma_whole(id);
            assert forall|f: int| #[trigger] pool.touched().contains(f) implies pool.at(f) != Some(id) by {
                pool.lemma_touched(f);
            }
        }
        match pool.free(id) {
            Ok(_) => {
                assert(pool.keeps(old(pool)));
                Ok(())
            },
            Err(e) => Err(TreeError::Pool(e)),
        }
    }

    /// Rebalances child `ci` with its neighbours: what they hold is dealt out evenly, to one node
    /// more where they are too full, to one less where they are too empty. The nodes keep their
    /// pages; one more gets the page that the medium hands out next, and the last of the
    /// neighbours gives its page back when there is one less. Says of each node that comes out
    /// whether its page can be read back.
    #[verifier::rlimit(50)]
    pub(crate) fn balance_window(
        pool: &mut BufferPoolManager<M>,
        parent: &mut Internal,
        ci: usize,
        t: usize,
        max_keys: usize,
    ) -> (r: Result<Vec<bool>, TreeError<M::Error>>)
        requires
            old(pool).wf(),
            old(pool).whole(),
            old(pool).held() < u32::MAX,
            old(pool).room() > 0,
            3 * t <= usize::MAX,
            1 <= max_keys,
            3 * max_keys <= usize::MAX,
            ci < old(parent).children.len(),
            old(parent).keys.len() + 1 == old(parent).children.len(),
            neighbours(
                old(parent).children@,
                old(pool).pages(),
                window_left(ci as int),
                window_right(ci as int, old(parent).children@.len() as int),
            ),
            forall|i: int|
                window_left(ci as int) <= i <= window_right(
                    ci as int,
                    old(parent).children@.len() as int,
                ) ==> unheld(old(pool), #[trigger] old(parent).children@[i]),
        ensures
            ({
                let keys = key_views(old(parent).keys@);
                let c = old(parent).children@;
                let p = old(pool).pages();
                let l = window_left(ci as int);
                let rt = window_right(ci as int, c.len() as int);
                let n = target(page_load(c, p, l, rt) as int, rt - l + 1, t as int, max_keys as int);
                let v = joined_pages(keys, c, p, l, rt);
                let fresh = old(pool).upcoming(0);
                let ids = part_ids(c, l, rt, n, fresh);
                &&& r matches Ok(fit) ==> {
                    &&& final(pool).quiet(old(pool))
                    &&& moved(final(pool), old(pool), dealt_pages(rt - l + 1, n))
                    &&& final(pool).room() + 1 >= old(pool).room()
                    &&& can_deal_view(v, n)
                    &&& parts_hold(v, n)
                    &&& fit@ == Seq::new(n as nat, |i: int| part_fits(v, n, i))
                    &&& exists|a: BufferPoolManager<M>, b: BufferPoolManager<M>|
                        #![trigger a.toured(old(pool), window_tour(c, l, rt, v is Leaf)), b.quiet(&a)]
                        a.toured(old(pool), window_tour(c, l, rt, v is Leaf)) && b.quiet(&a)
                            && final(pool).toured(
                            &b,
                            if v is Leaf {
                                ids.skip(1)
                            } else {
                                Seq::empty()
                            },
                        )
                    &&& key_views(final(parent).keys@) == keys.take(l) + Seq::new(
                        (n - 1) as nat,
                        |i: int| fence_view(v, n, i),
                    ) + keys.skip(rt)
                    &&& final(parent).children@ == c.take(l) + ids + c.skip(rt + 1)
                    &&& parts_written(c, p, final(pool).pages(), l, rt, n, fresh, v)
                    &&& forall|i: int| 0 <= i < n ==> unheld(final(pool), #[trigger] ids[i])
                }
                &&& calm(old(pool)) && can_deal_view(v, n) && parts_hold(v, n) ==> r is Ok
                &&& r is Err ==> kept(final(pool), old(pool))
                &&& r matches Err(e) ==> {
                    ||| e is Pool && !calm(old(pool))
                    ||| e is EmptyLeaf && !can_deal_view(v, n)
                    ||| e is PageFull && can_deal_view(v, n) && !parts_hold(v, n)
                }
            }),
    {
        let ghost keys = key_views(parent.keys@);
        let ghost c = parent.children@;
        let ghost p = pool.pages();
        let len = parent.children.len();
        let left = if ci == 0 {
            0
        } else {
            ci - 1
        };
        let right = if ci + 1 < len {
            ci + 1
        } else {
            len - 1
        };
        let width = right - left + 1;
        let ghost l = left as int;
        let ghost rt = right as int;
        let (pooled, total_entries) = Self::gather(pool, parent, left, right)?;
        let n = window_count(total_entries, width, t, max_keys);
        let ghost v = pooled@;
        proof {
            lemma_joined_pages(keys, c, p, l, rt);
        }
        if !pooled.can_deal(n) {
            return Err(TreeError::EmptyLeaf);
        }
        let ghost mid = *pool;
        proof {
            assert forall|i: int| l <= i <= rt implies unheld(pool, #[trigger] c[i]) by {
                lemma_unheld(pool, old(pool), c[i]);
            }
        }
        let (seps, ids, fit) = match Self::deal_window(pool, parent, left, right, n, pooled) {
            Ok(x) => x,
            Err(e) => {
                proof {
                    lemma_kept(pool, &mid, old(pool));
                }
                return Err(e);
            },
        };
        proof {
            lemma_quiet(pool, &mid, old(pool));
            assert(key_views(seps@) =~= Seq::new((n - 1) as nat, |i: int| fence_view(v, n as int, i)));
        }
        replace_window(parent, left, right, seps, ids);
        Ok(fit)
    }

    /// Deals a node that was made of neighbours out to `n` nodes, and writes them. The separators
    /// between leaves are read back from their pages.
    #[verifier::rlimit(50)]
    fn deal_window(
        pool: &mut BufferPoolManager<M>,
        parent: &Internal,
        left: usize,
        right: usize,
        n: usize,
        pooled: Node,
    ) -> (r: Result<(Vec<Key>, Vec<PageId>, Vec<bool>), TreeError<M::Error>>)
        requires
            old(pool).wf(),
            old(pool).whole(),
            old(pool).held() < u32::MAX,
            old(pool).room() > 0,
            1 <= n,
            right - left <= n <= right - left + 2,
            neighbours(parent.children@, old(pool).pages(), left as int, right as int),
            forall|i: int|
                left <= i <= right ==> unheld(old(pool), #[trigger] parent.children@[i]),
            dealable(pooled@),
            can_deal_view(pooled@, n as int),
        ensures
            r matches Ok(x) ==> {
                let fresh = old(pool).upcoming(0);
                let ids = part_ids(parent.children@, left as int, right as int, n as int, fresh);
                &&& final(pool).quiet(old(pool))
                &&& moved(final(pool), old(pool), dealt_pages(right - left + 1, n as int))
                &&& final(pool).room() + 1 >= old(pool).room()
                &&& parts_hold(pooled@, n as int)
                &&& x.2@ == Seq::new(n as nat, |i: int| part_fits(pooled@, n as int, i))
                &&& exists|b: BufferPoolManager<M>| #[trigger] b.quiet(old(pool)) && final(pool).toured(
                    &b,
                    if pooled@ is Leaf {
                        ids.skip(1)
                    } else {
                        Seq::empty()
                    },
                )
                &&& x.0@.len() == n - 1
                &&& forall|i: int|
                    0 <= i < n - 1 ==> (#[trigger] x.0@[i])@ == fence_view(pooled@, n as int, i)
                &&& x.1@ == ids
                &&& parts_written(
                    parent.children@,
                    old(pool).pages(),
                    final(pool).pages(),
                    left as int,
                    right as int,
                    n as int,
                    fresh,
                    pooled@,
                )
                &&& forall|i: int| 0 <= i < n ==> unheld(final(pool), #[trigger] ids[i])
            },
            calm(old(pool)) && parts_hold(pooled@, n as int) ==> r is Ok,
            r is Err ==> kept(final(pool), old(pool)),
            r matches Err(e) ==> {
                ||| e is Pool && !calm(old(pool))
                ||| e is PageFull && !parts_hold(pooled@, n as int)
            },
    {
        let ghost c = parent.children@;
        let ghost p = pool.pages();
        let ghost l = left as int;
        let ghost rt = right as int;
        let ghost v = pooled@;
        let leaf = pooled.is_leaf();
        let ids = Self::window_pages(pool, parent, left, right, n, leaf)?;
        let ghost p1 = pool.pages();
        let ghost pool1 = *pool;
        let (seps, fit) = match Self::put_parts(pool, &ids, pooled) {
            Ok(x) => x,
            Err(e) => {
                proof {
                    lemma_kept(pool, &pool1, old(pool));
                }
                return Err(e);
            },
        };
        proof {
            let q = pool.pages();
            let tail = if v is Leaf {
                ids@.skip(1)
            } else {
                Seq::empty()
            };
            let b = choose|b: BufferPoolManager<M>| #[trigger] b.quiet(&pool1) && pool.toured(&b, tail);
            lemma_quiet(&b, &pool1, old(pool));
            lemma_quiet(pool, &pool1, old(pool));
            assert forall|i: int| 0 <= i < n implies unheld(pool, #[trigger] ids@[i]) by {
                lemma_unheld(pool, &pool1, ids@[i]);
            }
            assert forall|x: PageId| #[trigger] p.contains_key(x) && (forall|k: int|
                l <= k <= rt ==> #[trigger] c[k] != x) implies q.contains_key(x) && q[x] == p[x] by {
                assert(p1.contains_key(x) && p1[x] == p[x]);
                assert(p1.dom().contains(x));
                assert(q.dom().contains(x));
                if ids@.contains(x) {
                    let i = choose|i: int| 0 <= i < ids@.len() && ids@[i] == x;
                    if i <= rt - l {
                        assert(c[l + i] == x);
                    }
                }
            }
        }
        Ok((seps, ids, fit))
    }

    /// Deals a node out to pages. Hands the separators between the parts back, and which of the
    /// parts fit on their pages.
    #[verifier::rlimit(50)]
    fn put_parts(
        pool: &mut BufferPoolManager<M>,
        ids: &Vec<PageId>,
        pooled: Node,
    ) -> (r: Result<(Vec<Key>, Vec<bool>), TreeError<M::Error>>)
        requires
            old(pool).wf(),
            old(pool).whole(),
            old(pool).held() < u32::MAX,
            ids@.len() >= 1,
            dealable(pooled@),
            can_deal_view(pooled@, ids@.len() as int),
            forall|i: int|
                0 <= i < ids@.len() ==> old(pool).pages().contains_key(#[trigger] ids@[i]) && ids@[i]
                    != NULL_PAGE && unheld(old(pool), ids@[i]),
            forall|i: int, j: int| 0 <= i < j < ids@.len() ==> #[trigger] ids@[i] != #[trigger] ids@[j],
        ensures
            r matches Ok(x) ==> {
                let n = ids@.len() as int;
                &&& final(pool).quiet(old(pool))
                &&& moved(final(pool), old(pool), (0, 0))
                &&& final(pool).room() == old(pool).room()
                &&& final(pool).pages().dom() == old(pool).pages().dom()
                &&& parts_hold(pooled@, n)
                &&& x.1@ == Seq::new(n as nat, |i: int| part_fits(pooled@, n, i))
                &&& x.0@.len() == n - 1
                &&& forall|i: int|
                    0 <= i < n - 1 ==> (#[trigger] x.0@[i])@ == fence_view(pooled@, n, i)
                &&& forall|i: int|
                    0 <= i < n ==> final(pool).pages()[#[trigger] ids@[i]] == part_view(
                        pooled@,
                        ids@,
                        i,
                    ).image()
                &&& forall|x: PageId| #[trigger]
                    old(pool).pages().contains_key(x) && !ids@.contains(x) ==> final(pool).pages()[x]
                        == old(pool).pages()[x]
                &&& exists|b: BufferPoolManager<M>| #[trigger] b.quiet(old(pool)) && final(pool).toured(
                    &b,
                    if pooled@ is Leaf {
                        ids@.skip(1)
                    } else {
                        Seq::empty()
                    },
                )
            },
            calm(old(pool)) && parts_hold(pooled@, ids@.len() as int) ==> r is Ok,
            r is Err ==> kept(final(pool), old(pool)),
            r matches Err(e) ==> {
                ||| e is Pool && !calm(old(pool))
                ||| e is PageFull && !parts_hold(pooled@, ids@.len() as int)
            },
    {
        let n = ids.len();
        let ghost v = pooled@;
        let leaf = pooled.is_leaf();
        let (parts_out, fences) = deal(pooled, ids);
        let fit = which_fit(&parts_out);
        proof {
            assert forall|i: int| 0 <= i < n implies (#[trigger] parts_out@[i])@.sound() by {
                lemma_part_dealable(v, ids@, i);
            }
            assert forall|i: int| 0 <= i < n implies (#[trigger] lone_part(v, n as int, i)).packs()
                == parts_out@[i]@.packs() && part_fits(v, n as int, i) == fit@[i] by {
                lemma_parts_fit(v, ids@, i);
            }
            assert(fit@ =~= Seq::new(n as nat, |i: int| part_fits(v, n as int, i))) by {
                assert forall|i: int| 0 <= i < n implies fit@[i] == part_fits(v, n as int, i) by {
                    assert(lone_part(v, n as int, i).packs() == parts_out@[i]@.packs());
                }
            }
        }
        if leaf && !rest_hold(&fit) {
            proof {
                let i = choose|i: int| 1 <= i < fit@.len() && !fit@[i];
                assert(lone_part(v, n as int, i).packs() == parts_out@[i]@.packs());
            }
            return Err(TreeError::PageFull);
        }
        proof {
            if forall|i: int| 0 <= i < n ==> (#[trigger] parts_out@[i])@.packs() {
                assert forall|i: int| 0 <= i < n implies (#[trigger] lone_part(v, n as int, i)).packs()
                    && (v is Leaf && i > 0 ==> part_fits(v, n as int, i)) by {
                    assert(parts_out@[i]@.packs());
                    assert(i > 0 && leaf ==> fit@[i]);
                }
            }
            if parts_hold(v, n as int) {
                assert forall|i: int| 0 <= i < n implies (#[trigger] parts_out@[i])@.packs() by {
                    assert(lone_part(v, n as int, i).packs());
                }
            }
        }
        Self::write_parts(pool, ids, &parts_out)?;
        let ghost pool2 = *pool;
        proof {
            let q = pool.pages();
            assert forall|i: int| 0 <= i < n implies q[#[trigger] ids@[i]] == part_view(
                v,
                ids@,
                i,
            ).image() by {
                assert(parts_out@[i]@ == part_view(v, ids@, i));
            }
            if v is Leaf {
                assert forall|i: int| 1 <= i < n implies q.contains_key(#[trigger] ids@[i])
                    && starts(q[ids@[i]], fence_view(v, n as int, i - 1)) by {
                    assert(fit@[i]);
                    assert(parts_out@[i]@ == part_view(v, ids@, i));
                    lemma_round_trip(part_view(v, ids@, i));
                    assert(old(pool).pages().dom().contains(ids@[i]));
                    assert(q.dom().contains(ids@[i]));
                    let e = v->Leaf_0;
                    lemma_begin(e.len() as int, n as int, i);
                    lemma_begin(e.len() as int, n as int, i + 1);
                    assert(part_view(v, ids@, i)->Leaf_0[0] == e[begin(e.len() as int, n as int, i)]);
                }
            }
        }
        if leaf {
            let seps = match Self::first_keys(pool, ids, Ghost(v)) {
                Ok(seps) => seps,
                Err(e) => {
                    proof {
                        lemma_kept(pool, &pool2, old(pool));
                    }
                    return Err(e);
                },
            };
            proof {
                lemma_quiet(pool, &pool2, old(pool));
                assert(pool2.quiet(old(pool)));
            }
            Ok((seps, fit))
        } else {
            proof {
                assert(pool2.toured(&pool2, Seq::empty()));
                assert(pool2.quiet(old(pool)));
            }
            Ok((fences, fit))
        }
    }

    /// Reads the first keys of leaves but the first one.
    fn first_keys(
        pool: &mut BufferPoolManager<M>,
        ids: &Vec<PageId>,
        Ghost(v): Ghost<NodeView>,
    ) -> (r: Result<Vec<Key>, TreeError<M::Error>>)
        requires
            old(pool).wf(),
            old(pool).whole(),
            old(pool).held() < u32::MAX,
            ids@.len() > 0,
            forall|i: int|
                1 <= i < ids@.len() ==> old(pool).pages().contains_key(#[trigger] ids@[i]) && starts(
                    old(pool).pages()[ids@[i]],
                    fence_view(v, ids@.len() as int, i - 1),
                ),
        ensures
            r matches Ok(keys) ==> {
                &&& final(pool).quiet(old(pool))
                &&& moved(final(pool), old(pool), (0, 0))
                &&& final(pool).pages() == old(pool).pages()
                &&& final(pool).room() == old(pool).room()
                &&& final(pool).toured(old(pool), ids@.skip(1))
                &&& keys@.len() == ids@.len() - 1
                &&& forall|i: int|
                    0 <= i < ids@.len() - 1 ==> (#[trigger] keys@[i])@ == fence_view(
                        v,
                        ids@.len() as int,
                        i,
                    )
            },
            calm(old(pool)) ==> r is Ok,
            r matches Err(e) ==> e is Pool && intact(final(pool), old(pool)),
    {
        let n = ids.len();
        let ghost p = pool.pages();
        let mut keys: Vec<Key> = Vec::new();
        let mut i: usize = 1;
        assert(ids@.subrange(1, 1) =~= Seq::empty());
        while i < n
            invariant
                1 <= i <= n,
                n == ids@.len(),
                keys@.len() == i - 1,
                p == old(pool).pages(),
                pool.quiet(old(pool)),
                moved(pool, old(pool), (0, 0)),
                pool.pages() == p,
                pool.room() == old(pool).room(),
                pool.toured(old(pool), ids@.subrange(1, i as int)),
                old(pool).wf(),
                old(pool).held() < u32::MAX,
                forall|j: int|
                    1 <= j < n ==> p.contains_key(#[trigger] ids@[j]) && starts(
                        p[ids@[j]],
                        fence_view(v, n as int, j - 1),
                    ),
                forall|j: int| 0 <= j < i - 1 ==> (#[trigger] keys@[j])@ == fence_view(v, n as int, j),
            decreases n - i,
        {
            let ghost before = *pool;
            proof {
                assert(p.contains_key(ids@[i as int]));
                pool.lemma_whole(ids@[i as int]);
            }
            let node = match Self::read_node(pool, ids[i]) {
                Ok(node) => node,
                Err(e) => {
                    proof {
                        lemma_kept(pool, &before, old(pool));
                        before.lemma_plain();
                    }
                    return Err(e);
                },
            };
            proof {
                lemma_quiet(pool, &before, old(pool));
                pool.lemma_toured(&before, old(pool), ids@.subrange(1, i as int), ids@[i as int]);
                assert(ids@.subrange(1, i as int).push(ids@[i as int]) =~= ids@.subrange(1, i + 1));
            }
            match node {
                Node::Leaf(leaf) => {
                    assert(entry_views(leaf.entries@)[0] == leaf.entries@[0]@);
                    keys.push(leaf.entries[0].key.clone());
                },
                Node::Internal(_) => {
                    proof {
                        assert(false);
                    }
                },
            }
            i += 1;
        }
        assert(ids@.subrange(1, n as int) =~= ids@.skip(1));
        Ok(keys)
    }

    /// How much neighbours hold together.
    fn count_window(
        pool: &mut BufferPoolManager<M>,
        parent: &Internal,
        left: usize,
        right: usize,
    ) -> (r: Result<usize, TreeError<M::Error>>)
        requires
            old(pool).wf(),
            old(pool).whole(),
            old(pool).held() < u32::MAX,
            right - left <= 2,
            neighbours(parent.children@, old(pool).pages(), left as int, right as int),
        ensures
            r matches Ok(x) ==> {
                &&& final(pool).quiet(old(pool))
                &&& moved(final(pool), old(pool), (0, 0))
                &&& final(pool).pages() == old(pool).pages()
                &&& final(pool).room() == old(pool).room()
                &&& forall|n: nat| #[trigger] final(pool).upcoming(n) == old(pool).upcoming(n)
                &&& final(pool).toured(
                    old(pool),
                    parent.children@.subrange(left as int, right + 1),
                )
                &&& x == page_load(parent.children@, old(pool).pages(), left as int, right as int)
            },
            calm(old(pool)) ==> r is Ok,
            r matches Err(e) ==> e is Pool && intact(final(pool), old(pool)),
    {
        let ghost c = parent.children@;
        let ghost p = pool.pages();
        let ghost l = left as int;
        let len = parent.children.len();
        assert(right < len);
        let mut total: usize = 0;
        let mut j = left;
        assert(c.subrange(l, l) =~= Seq::empty());
        while j <= right
            invariant
                left <= j <= right + 1,
                l == left,
                c == parent.children@,
                right < parent.children.len(),
                neighbours(c, p, l, right as int),
                p == old(pool).pages(),
                pool.quiet(old(pool)),
                moved(pool, old(pool), (0, 0)),
                pool.pages() == p,
                pool.room() == old(pool).room(),
                forall|n: nat| #[trigger] pool.upcoming(n) == old(pool).upcoming(n),
                pool.toured(old(pool), c.subrange(l, j as int)),
                old(pool).wf(),
                old(pool).held() < u32::MAX,
                total == page_load(c, p, l, j - 1),
                total <= 65535 * (j - left),
                right - left <= 2,
            decreases right + 1 - j,
        {
            let ghost before = *pool;
            proof {
                assert(c[j as int] != NULL_PAGE);
                pool.lemma_whole(c[j as int]);
            }
            let node = match Self::read_node(pool, parent.children[j]) {
                Ok(node) => node,
                Err(e) => {
                    proof {
                        lemma_kept(pool, &before, old(pool));
                        before.lemma_plain();
                    }
                    return Err(e);
                },
            };
            proof {
                lemma_node_count(node);
                lemma_quiet(pool, &before, old(pool));
                assert(node_at(c, p, j as int) == node@);
                assert forall|n: nat| #[trigger] pool.upcoming(n) == old(pool).upcoming(n) by {
                    assert(before.upcoming(n) == old(pool).upcoming(n));
                }
                pool.lemma_toured(&before, old(pool), c.subrange(l, j as int), c[j as int]);
                assert(c.subrange(l, j as int).push(c[j as int]) =~= c.subrange(l, j + 1));
            }
            total = total + node.key_count();
            j += 1;
        }
        Ok(total)
    }

    /// Makes one node of neighbours; also says how much they held. All of them are read to be
    /// counted, the first one to see what they are, the last leaf for its link, and then all of
    /// them for what they hold.
    #[verifier::rlimit(50)]
    fn gather(
        pool: &mut BufferPoolManager<M>,
        parent: &Internal,
        left: usize,
        right: usize,
    ) -> (r: Result<(Node, usize), TreeError<M::Error>>)
        requires
            old(pool).wf(),
            old(pool).whole(),
            old(pool).held() < u32::MAX,
            right - left <= 2,
            parent.keys@.len() + 1 == parent.children@.len(),
            neighbours(parent.children@, old(pool).pages(), left as int, right as int),
        ensures
            r matches Ok(x) ==> {
                &&& final(pool).quiet(old(pool))
                &&& moved(final(pool), old(pool), (0, 0))
                &&& final(pool).pages() == old(pool).pages()
                &&& final(pool).room() == old(pool).room()
                &&& forall|n: nat| #[trigger] final(pool).upcoming(n) == old(pool).upcoming(n)
                &&& final(pool).toured(
                    old(pool),
                    window_tour(parent.children@, left as int, right as int, x.0@ is Leaf),
                )
                &&& x.0@ == joined_pages(
                    key_views(parent.keys@),
                    parent.children@,
                    old(pool).pages(),
                    left as int,
                    right as int,
                )
                &&& x.1 == page_load(parent.children@, old(pool).pages(), left as int, right as int)
            },
            calm(old(pool)) ==> r is Ok,
            r matches Err(e) ==> e is Pool && intact(final(pool), old(pool)),
    {
        let ghost keys = key_views(parent.keys@);
        let ghost c = parent.children@;
        let ghost p = pool.pages();
        let ghost l = left as int;
        let ghost rt = right as int;
        let ghost w = c.subrange(l, rt + 1);
        let len = parent.children.len();
        assert(right < len);
        let total_entries = Self::count_window(pool, parent, left, right)?;
        let ghost pool1 = *pool;
        proof {
            assert(c[l] != NULL_PAGE);
            pool.lemma_whole(c[l]);
        }
        let is_leaf = match Self::read_node(pool, parent.children[left]) {
            Ok(node) => node.is_leaf(),
            Err(e) => {
                proof {
                    lemma_kept(pool, &pool1, old(pool));
                        pool1.lemma_plain();
                }
                return Err(e);
            },
        };
        let ghost pool2 = *pool;
        let ghost tour2 = w.push(c[l]);
        proof {
            lemma_quiet(pool, &pool1, old(pool));
            pool.lemma_toured(&pool1, old(pool), w, c[l]);
            assert(is_leaf == (node_at(c, p, l) is Leaf));
            assert forall|n: nat| #[trigger] pool.upcoming(n) == old(pool).upcoming(n) by {
                assert(pool1.upcoming(n) == old(pool).upcoming(n));
            }
        }
        let mut rightmost_next: Option<PageId> = None;
        if is_leaf {
            proof {
                assert(c[rt] != NULL_PAGE);
                pool.lemma_whole(c[rt]);
            }
            match Self::read_node(pool, parent.children[right]) {
                Ok(Node::Leaf(last)) => {
                    rightmost_next = last.next;
                    assert(node_at(c, p, rt) == last@);
                },
                Ok(Node::Internal(_)) => {
                    proof {
                        assert(same_kind(node_at(c, p, l), node_at(c, p, rt)));
                        assert(false);
                    }
                },
                Err(e) => {
                    proof {
                        lemma_kept(pool, &pool2, old(pool));
                        pool2.lemma_plain();
                    }
                    return Err(e);
                },
            }
            proof {
                lemma_quiet(pool, &pool2, old(pool));
                pool.lemma_toured(&pool2, old(pool), tour2, c[rt]);
                assert forall|n: nat| #[trigger] pool.upcoming(n) == old(pool).upcoming(n) by {
                    assert(pool2.upcoming(n) == old(pool).upcoming(n));
                }
            }
        }
        let ghost pool3 = *pool;
        let ghost tour3 = if is_leaf {
            tour2.push(c[rt])
        } else {
            tour2
        };
        proof {
            pool.lemma_whole(c[l]);
        }
        let mut pooled = match Self::read_node(pool, parent.children[left]) {
            Ok(node) => node,
            Err(e) => {
                proof {
                    lemma_kept(pool, &pool3, old(pool));
                        pool3.lemma_plain();
                }
                return Err(e);
            },
        };
        proof {
            lemma_quiet(pool, &pool3, old(pool));
            pool.lemma_toured(&pool3, old(pool), tour3, c[l]);
            assert(tour3.push(c[l]) =~= tour3 + c.subrange(l, l + 1));
            assert(node_at(c, p, l) == pooled@);
            assert forall|n: nat| #[trigger] pool.upcoming(n) == old(pool).upcoming(n) by {
                assert(pool3.upcoming(n) == old(pool).upcoming(n));
            }
        }
        let mut j = left + 1;
        while j <= right
            invariant
                left < j <= right + 1,
                l == left,
                c == parent.children@,
                right < parent.children.len(),
                parent.keys@.len() + 1 == c.len(),
                keys == key_views(parent.keys@),
                neighbours(c, p, l, right as int),
                pool.quiet(old(pool)),
                moved(pool, old(pool), (0, 0)),
                p == old(pool).pages(),
                pool.pages() == p,
                pool.room() == old(pool).room(),
                forall|n: nat| #[trigger] pool.upcoming(n) == old(pool).upcoming(n),
                pool.toured(old(pool), tour3 + c.subrange(l, j as int)),
                old(pool).wf(),
                old(pool).held() < u32::MAX,
                pooled@ == joined_pages(keys, c, p, l, j - 1),
                same_kind(pooled@, node_at(c, p, l)),
                pooled@ is Leaf ==> pooled@->Leaf_1 == node_at(c, p, j - 1)->Leaf_1,
            decreases right + 1 - j,
        {
            let ghost before = *pool;
            proof {
                assert(c[j as int] != NULL_PAGE);
                pool.lemma_whole(c[j as int]);
            }
            let node = match Self::read_node(pool, parent.children[j]) {
                Ok(node) => node,
                Err(e) => {
                    proof {
                        lemma_kept(pool, &before, old(pool));
                        before.lemma_plain();
                    }
                    return Err(e);
                },
            };
            proof {
                lemma_quiet(pool, &before, old(pool));
                pool.lemma_toured(&before, old(pool), tour3 + c.subrange(l, j as int), c[j as int]);
                assert((tour3 + c.subrange(l, j as int)).push(c[j as int]) =~= tour3 + c.subrange(l, j + 1));
                assert(node_at(c, p, j as int) == node@);
                assert forall|n: nat| #[trigger] pool.upcoming(n) == old(pool).upcoming(n) by {
                    assert(before.upcoming(n) == old(pool).upcoming(n));
                }
            }
            assert(parent.keys@[j - 1]@ == keys[j - 1]);
            pooled = join_nodes(pooled, &parent.keys[j - 1], node);
            j += 1;
        }
        let ghost v = pooled@;
        if let Node::Leaf(leaf) = pooled {
            pooled = Node::Leaf(Leaf { entries: leaf.entries, next: rightmost_next });
        }
        proof {
            assert(pooled@ == v);
            assert(tour3 + w =~= window_tour(c, l, rt, is_leaf));
        }
        Ok((pooled, total_entries))
    }

    /// The pages for `n` nodes in place of neighbours: theirs, and a new one if they do not suffice;
    /// the last one is given back if it is not needed.
    #[verifier::rlimit(50)]
    fn window_pages(
        pool: &mut BufferPoolManager<M>,
        parent: &Internal,
        left: usize,
        right: usize,
        n: usize,
        leaf: bool,
    ) -> (r: Result<Vec<PageId>, TreeError<M::Error>>)
        requires
            old(pool).wf(),
            old(pool).whole(),
            old(pool).held() < u32::MAX,
            old(pool).room() > 0,
            1 <= n,
            right - left <= n <= right - left + 2,
            neighbours(parent.children@, old(pool).pages(), left as int, right as int),
            forall|i: int|
                left <= i <= right ==> unheld(old(pool), #[trigger] parent.children@[i]),
        ensures
            r matches Ok(ids) ==> {
                let c = parent.children@;
                let p = old(pool).pages();
                let q = final(pool).pages();
                let fresh = old(pool).upcoming(0);
                &&& final(pool).quiet(old(pool))
                &&& moved(final(pool), old(pool), dealt_pages(right - left + 1, n as int))
                &&& final(pool).room() + 1 >= old(pool).room()
                &&& ids@ == part_ids(c, left as int, right as int, n as int, fresh)
                &&& n == right - left + 2 ==> !p.contains_key(fresh) && fresh != NULL_PAGE
                &&& q.dom() == part_pages(p.dom(), c, left as int, right as int, n as int, fresh)
                &&& forall|x: PageId| #[trigger]
                    p.contains_key(x) && (n < right - left + 1 ==> x != c[right as int])
                        ==> q.contains_key(x) && q[x] == p[x]
                &&& forall|i: int| 0 <= i < n ==> q.contains_key(#[trigger] ids@[i]) && ids@[i]
                    != NULL_PAGE && unheld(final(pool), ids@[i])
                &&& forall|i: int, j: int| 0 <= i < j < n ==> #[trigger] ids@[i] != #[trigger] ids@[j]
            },
            calm(old(pool)) ==> r is Ok,
            r matches Err(e) ==> e is Pool && kept(final(pool), old(pool)),
    {
        let ghost c = parent.children@;
        let ghost p = pool.pages();
        let ghost l = left as int;
        let ghost rt = right as int;
        let ghost fresh = pool.upcoming(0);
        let len = parent.children.len();
        assert(right < len);
        let width = right - left + 1;
        let mut ids: Vec<PageId> = Vec::with_capacity(n);
        let mut i: usize = 0;
        while i < n && i < width
            invariant
                i <= n,
                i <= width,
                width == right - left + 1,
                right < parent.children.len(),
                left <= right,
                l == left,
                c == parent.children@,
                ids@.len() == i,
                forall|j: int| 0 <= j < i ==> #[trigger] ids@[j] == c[l + j],
            decreases n - i,
        {
            ids.push(parent.children[left + i]);
            i += 1;
        }
        if n > width {
            let new_id = if leaf {
                Self::allocate_leaf(pool)?
            } else {
                Self::allocate_internal(pool)?
            };
            ids.push(new_id);
        } else if n < width {
            assert(c[rt] != NULL_PAGE);
            Self::free(pool, parent.children[right])?;
        }
        proof {
            assert(ids@ =~= part_ids(c, l, rt, n as int, fresh));
            assert(pool.pages().dom() =~= part_pages(p.dom(), c, l, rt, n as int, fresh));
            assert forall|i: int, j: int| 0 <= i < j < n implies #[trigger] ids@[i] != #[trigger] ids@[j] by {
                assert(ids@[i] == c[l + i]);
                if j <= rt - l {
                    assert(c[l + i] != c[l + j]);
                } else {
                    assert(p.contains_key(c[l + i]));
                }
            }
            assert forall|i: int| 0 <= i < n implies pool.pages().contains_key(#[trigger] ids@[i])
                && ids@[i] != NULL_PAGE && unheld(pool, ids@[i]) by {
                if i <= rt - l {
                    assert(ids@[i] == c[l + i]);
                    assert(c[l + i] != NULL_PAGE);
                    if n < width {
                        assert(c[l + i] != c[rt]);
                    }
                    lemma_unheld(pool, old(pool), c[l + i]);
                } else {
                    assert(!p.contains_key(ids@[i]));
                    assert forall|f: int|
                        0 <= f < old(pool).frames() && #[trigger] old(pool).pins()[f] > 0 implies old(pool).at(f) != Some(ids@[i]) by {
                        if old(pool).at(f) == Some(ids@[i]) {
                            old(pool).lemma_at(f, ids@[i]);
                        }
                    }
                    lemma_unheld(pool, old(pool), ids@[i]);
                }
            }
        }
        Ok(ids)
    }

    /// Writes nodes to their pages.
    #[verifier::rlimit(50)]
    fn write_parts(
        pool: &mut BufferPoolManager<M>,
        ids: &Vec<PageId>,
        nodes: &Vec<Node>,
    ) -> (r: Result<(), TreeError<M::Error>>)
        requires
            old(pool).wf(),
            old(pool).whole(),
            old(pool).held() < u32::MAX,
            ids@.len() == nodes@.len(),
            forall|i: int| 0 <= i < nodes@.len() ==> (#[trigger] nodes@[i])@.sound(),
            forall|i: int| 0 <= i < ids@.len() ==> old(pool).pages().contains_key(#[trigger] ids@[i])
                && unheld(old(pool), ids@[i]),
            forall|i: int, j: int| 0 <= i < j < ids@.len() ==> #[trigger] ids@[i] != #[trigger] ids@[j],
        ensures
            r is Ok ==> {
                &&& final(pool).quiet(old(pool))
                &&& moved(final(pool), old(pool), (0, 0))
                &&& final(pool).room() == old(pool).room()
                &&& final(pool).pages().dom() == old(pool).pages().dom()
                &&& forall|i: int|
                    0 <= i < ids@.len() ==> final(pool).pages()[#[trigger] ids@[i]] == nodes@[i]@.image()
                &&& forall|i: int| 0 <= i < ids@.len() ==> (#[trigger] nodes@[i])@.packs()
                &&& forall|x: PageId| #[trigger]
                    old(pool).pages().contains_key(x) && !ids@.contains(x) ==> final(pool).pages()[x]
                        == old(pool).pages()[x]
            },
            calm(old(pool)) && (forall|i: int|
                0 <= i < nodes@.len() ==> (#[trigger] nodes@[i])@.packs()) ==> r is Ok,
            r is Err ==> kept(final(pool), old(pool)),
            r matches Err(e) ==> {
                ||| e is Pool && !calm(old(pool))
                ||| e is PageFull && exists|i: int| 0 <= i < nodes@.len() && !(#[trigger] nodes@[i])@.packs()
            },
    {
        let ghost p1 = pool.pages();
        let n = ids.len();
        let mut i: usize = 0;
        while i < n
            invariant
                i <= n,
                n == ids@.len(),
                n == nodes@.len(),
                pool.quiet(old(pool)),
                moved(pool, old(pool), (0, 0)),
                pool.room() == old(pool).room(),
                old(pool).wf(),
                old(pool).held() < u32::MAX,
                p1 == old(pool).pages(),
                forall|j: int| 0 <= j < n ==> (#[trigger] nodes@[j])@.sound(),
                forall|j: int|
                    0 <= j < n ==> p1.contains_key(#[trigger] ids@[j]) && unheld(old(pool), ids@[j]),
                forall|j: int, k: int| 0 <= j < k < n ==> #[trigger] ids@[j] != #[trigger] ids@[k],
                pool.pages().dom() == p1.dom(),
                forall|j: int| 0 <= j < i ==> pool.pages()[#[trigger] ids@[j]] == nodes@[j]@.image(),
                forall|j: int| 0 <= j < i ==> (#[trigger] nodes@[j])@.packs(),
                forall|x: PageId| #[trigger]
                    p1.contains_key(x) && !ids@.contains(x) ==> pool.pages()[x] == p1[x],
            decreases n - i,
        {
            let ghost before = pool.pages();
            let ghost pool1 = *pool;
            let ghost id = ids@[i as int];
            proof {
                assert(p1.contains_key(id));
                assert(p1.dom().contains(id));
                assert(before.contains_key(id));
                lemma_unheld(pool, old(pool), id);
                assert(nodes@[i as int]@.sound());
            }
            match Self::write_node(pool, ids[i], &nodes[i]) {
                Ok(_) => {},
                Err(e) => {
                    proof {
                        lemma_kept(pool, &pool1, old(pool));
                    }
                    return Err(e);
                },
            }
            proof {
                assert(pool.pages().dom() =~= p1.dom());
                assert(ids@.contains(id));
            }
            i += 1;
        }
        Ok(())
    }

    /// How many cells the page of a node has.
    fn peek_count(
        pool: &mut BufferPoolManager<M>,
        id: PageId,
    ) -> (r: Result<usize, TreeError<M::Error>>)
        requires
            old(pool).wf(),
            old(pool).whole(),
            old(pool).held() < u32::MAX,
            old(pool).pages().contains_key(id),
        ensures
            r matches Ok(c) ==> {
                &&& final(pool).quiet(old(pool))
                &&& moved(final(pool), old(pool), (0, 0))
                &&& final(pool).pages() == old(pool).pages()
                &&& final(pool).room() == old(pool).room()
                &&& forall|n: nat| #[trigger] final(pool).upcoming(n) == old(pool).upcoming(n)
                &&& c == count_of(old(pool).pages()[id])
            },
            calm(old(pool)) ==> r is Ok,
            r matches Err(e) ==> e is Pool && denied(final(pool), old(pool), id, e->Pool_0),
    {
        proof {
            pool.lemma_whole(id);
            pool.lemma_frames();
            if calm(pool) {
                pool.lemma_not_full();
            }
        }
        let guard = match pool.read(id) {
            Ok(guard) => guard,
            Err(e) => {
                return Err(TreeError::Pool(e));
            },
        };
        let ghost f = guard.frame();
        let ghost mid = *pool;
        proof {
            pool.lemma_at(f, id);
            if pool.touched().contains(f) {
                old(pool).lemma_touched(f);
            }
        }
        let count = SlottedPage(&pool.page(&guard).0).cell_count();
        pool.release(guard);
        proof {
            assert(pool.pins() =~= old(pool).pins());
            assert forall|g: int| 0 <= g < old(pool).frames() && old(pool).pins()[g] > 0 implies pool.at(
                g,
            ) == old(pool).at(g) && pool.bytes_at(g) == old(pool).bytes_at(g) by {
                assert(mid.at(g) == old(pool).at(g));
                assert(mid.bytes_at(g) == old(pool).bytes_at(g));
            }
        }
        Ok(count)
    }

    /// Makes a change to a leaf that is held, and lets go of it.
    #[verifier::rlimit(50)]
    fn edit_leaf_page(
        pool: &mut BufferPoolManager<M>,
        guard: WriteGuard,
        key: &Key,
        value: Option<Vec<u8>>,
        Ghost(m): Ghost<PagedTree>,
        Ghost(lo): Ghost<Option<Seq<u8>>>,
        Ghost(hi): Ghost<Option<Seq<u8>>>,
    ) -> (r: Result<(bool, Option<Vec<u8>>, bool, bool, Ghost<PagedTree>), TreeError<M::Error>>)
        requires
            old(pool).wf(),
            old(pool).whole(),
            only(old(pool), guard.frame()),
            old(pool).at(guard.frame()) == Some(m.id()),
            m is Leaf,
            m.stored(old(pool).pages()),
            roomy(m.bare()),
            sorted_tree(m.bare(), 0, lo, hi),
        ensures
            r matches Ok(x) ==> {
                let e = m->Leaf_1;
                let v = opt_view(value);
                &&& done(old(pool), final(pool), 0)
                &&& moved(final(pool), old(pool), (0, 0))
                &&& rebuilt_tree(m, x.4@, old(pool).pages(), final(pool).pages())
                &&& x.4@.bare() == Tree::<Seq<u8>, Seq<u8>>::Leaf(changed(e, key@, v))
                &&& v is Some ==> packed(Tree::Leaf(changed(e, key@, v)))
                &&& x.2 == headed(x.4@.bare())
                &&& x.3 == neat(x.4@.bare())
                &&& x.0 == (v is Some && !found(e, key@))
                &&& opt_view(x.1) == if v is Some {
                    None
                } else {
                    get(e, key@)
                }
            },
            value is Some ==> packed(Tree::Leaf(changed(m->Leaf_1, key@, opt_view(value)))) ==> r is Ok,
            value is None ==> r is Ok,
            r matches Err(e) ==> {
                &&& e is PageFull
                &&& !packed(Tree::Leaf(changed(m->Leaf_1, key@, opt_view(value))))
                &&& let_down(final(pool), old(pool))
                &&& final(pool).pages() == old(pool).pages()
            },
    {
        let ghost f = guard.frame();
        let ghost p = pool.pages();
        let ghost e = m->Leaf_1;
        let ghost next = m->Leaf_2;
        let ghost v = opt_view(value);
        proof {
            pool.lemma_at(f, m.id());
            lemma_stored_node(m, p);
        }
        let mut leaf = Leaf::deserialize(&pool.page_of(&guard).0).unwrap();
        assert(entry_views(leaf.entries@) == e && leaf.next == next);
        let pos = leaf.find_pos(key);
        let adds = value.is_some();
        let mut added = false;
        let mut removed: Option<Vec<u8>> = None;
        let mut writes = true;
        proof {
            lemma_place(e, key@);
        }
        match value {
            Some(value) => {
                match pos {
                    Ok(i) => {
                        leaf.entries[i].value = value;
                        assert(entry_views(leaf.entries@) =~= e.update(i as int, (key@, value@)));
                    },
                    Err(i) => {
                        leaf.entries.insert(i, LeafEntry { key: key.clone(), value });
                        added = true;
                        assert(entry_views(leaf.entries@) =~= e.insert(i as int, (key@, value@)));
                    },
                }
            },
            None => {
                match pos {
                    Ok(i) => {
                        let entry = leaf.entries.remove(i);
                        proof {
                            assert(entry@ == e[i as int]);
                            assert(entry_views(leaf.entries@) =~= e.remove(i as int));
                            lemma_fits_remove(e, next, i as int);
                        }
                        removed = Some(entry.value);
                    },
                    Err(_) => {
                        writes = false;
                    },
                }
            },
        }
        let ghost e2 = changed(e, key@, v);
        let ghost m2 = PagedTree::Leaf(m.id(), e2, next);
        assert(entry_views(leaf.entries@) == e2);
        let node = Node::Leaf(leaf);
        proof {
            assert(node@ == m2.shape());
            lemma_roomy(m2.shape(), m2.bare());
        }
        let head = node.headed();
        let tidy = node.fits();
        if writes {
            if !node.packs() {
                assert(pool.touched().contains(f));
                pool.release_written(guard);
                proof {
                    lemma_idle(pool, old(pool), f);
                }
                return Err(TreeError::PageFull);
            }
            proof {
                assert(pool.touched().contains(f));
            }
            pool.set_page(&guard, Page(node.serialize()));
        }
        proof {
            assert(pool.touched().contains(f));
            assert(pool.pages().contains_key(m.id()));
        }
        let ghost mid = *pool;
        pool.release_written(guard);
        proof {
            lemma_idle(pool, &mid, f);
            if writes {
                lemma_written(m2, pool.pages());
            } else {
                assert(e2 == e);
                assert(m2 == m);
                assert(m2.on_page(pool.pages()));
            }
            assert forall|x: PageId| #[trigger] m2.owns(x) implies m.owns(x) by {}
            assert(rebuilt_tree(m, m2, p, pool.pages()));
        }
        Ok((added, removed, head, tidy, Ghost(m2)))
    }

    /// Rebalances the window around the child on the way to `key`; says which page is next.
    #[verifier::rlimit(50)]
    fn ready_child(
        pool: &mut BufferPoolManager<M>,
        guard: &WriteGuard,
        key: &Key,
        ci: usize,
        t: usize,
        Ghost(m): Ghost<PagedTree>,
        Ghost(h): Ghost<nat>,
        Ghost(lo): Ghost<Option<Seq<u8>>>,
        Ghost(hi): Ghost<Option<Seq<u8>>>,
    ) -> (r: Result<(PageId, bool, bool, Ghost<PagedTree>), TreeError<M::Error>>)
        requires
            old(pool).wf(),
            old(pool).whole(),
            only(old(pool), guard.frame()),
            old(pool).at(guard.frame()) == Some(m.id()),
            old(pool).room() > 0,
            2 <= t,
            6 * t <= usize::MAX,
            m is Node,
            m.stored(old(pool).pages()),
            m.distinct(),
            sorted_tree(m.bare(), h, lo, hi),
            ci < m.kids().len(),
            roomy(m.bare()),
            forall|i: int| 0 <= i < m.kids().len() ==> neat((#[trigger] m.kids()[i]).bare()),
        ensures
            r matches Ok(x) ==> {
                let keys = m->Node_1;
                let bare = bare_row(m.kids());
                &&& moved(
                    final(pool),
                    old(pool),
                    window_pages_moved(bare, ci as int, t as int),
                )
                &&& final(pool).wf()
                &&& final(pool).whole()
                &&& only(final(pool), guard.frame())
                &&& final(pool).at(guard.frame()) == Some(m.id())
                &&& final(pool).frames() == old(pool).frames()
                &&& final(pool).reliable() == old(pool).reliable()
                &&& final(pool).room() + 1 >= old(pool).room()
                &&& can_ready(keys, bare, ci as int, key@, t as int)
                &&& rebuilt_tree(m, x.3@, old(pool).pages(), final(pool).pages())
                &&& x.3@ is Node
                &&& x.3@.bare() == rebalanced(keys, bare, ci as int, t as int, 2 * t - 1)
                &&& right_route(x.3@->Node_1, key@) < x.3@.kids().len()
                &&& x.1 == headed(x.3@.bare())
                &&& x.2 == neat_but(x.3@.bare(), right_route(x.3@->Node_1, key@) as int)
                &&& neat(x.3@.kids()[right_route(x.3@->Node_1, key@) as int].bare())
                &&& x.0 == x.3@.kids()[right_route(x.3@->Node_1, key@) as int].id()
            },
            calm(old(pool)) && can_ready(m->Node_1, bare_row(m.kids()), ci as int, key@, t as int) ==> r is Ok,
            r is Err ==> kept(final(pool), old(pool)),
            r matches Err(e) ==> {
                let keys = m->Node_1;
                let bare = bare_row(m.kids());
                let can = can_rebalance(keys, bare, ci as int, t as int, 2 * t - 1);
                ||| e is Pool && !calm(old(pool))
                ||| e is EmptyLeaf && !can
                ||| e is PageFull && can && !can_ready(keys, bare, ci as int, key@, t as int)
            },
    {
        let ghost f = guard.frame();
        let ghost p = pool.pages();
        let ghost keys = m->Node_1;
        let ghost ch = m.kids();
        let ghost bare = bare_row(ch);
        let ghost id = m.id();
        proof {
            pool.lemma_at(f, id);
            lemma_bare(m);
            lemma_stored_node(m, p);
            assert forall|i: int| 0 <= i < ch.len() implies neat(#[trigger] bare[i]) by {
                assert(bare[i] == ch[i].bare());
            }
            assert forall|i: int| 0 <= i < ch.len() implies unheld(pool, (#[trigger] ch[i]).id()) by {
                assert(ch[i].owns(ch[i].id()));
                assert(!ch[i].owns(id));
            }
        }
        let mut internal = Internal::deserialize(&pool.page_of(guard).0).unwrap();
        assert(internal@ == m.shape());
        let ghost l = window_left(ci as int);
        let ghost rt = window_right(ci as int, ch.len() as int);
        let ghost n = window_target(bare, ci as int, t as int, 2 * t - 1);
        let ghost fresh = pool.upcoming(0);
        let ghost ids = part_ids(row_ids(ch), l, rt, n, fresh);
        proof {
            lemma_window_pages(keys, ch, h, lo, hi, p, l, rt, n);
        }
        let fit = Self::balance_window(pool, &mut internal, ci, t, 2 * t - 1)?;
        let ghost ch2 = dealt_row(keys, ch, l, rt, ids);
        proof {
            lemma_window_dealt(keys, ch, h, lo, hi, p, pool.pages(), l, rt, n, fresh);
        }
        let ghost k2 = key_views(internal.keys@);
        let ghost p1 = pool.pages();
        let ghost m1 = PagedTree::Node(id, k2, ch2);
        proof {
            lemma_dealt(keys, bare, h, lo, hi, l, rt, n);
            lemma_fences(k2, lo, hi);
            lemma_right_route(k2, key@);
            lemma_bare(m1);
            assert(bare_row(ch2).len() == ch2.len());
            assert(ch2.len() == k2.len() + 1);
        }
        let cj = internal.child_index(key);
        let next_id = internal.children[cj];
        let left = if ci == 0 {
            0
        } else {
            ci - 1
        };
        proof {
            assert(row_ids(ch2)[cj as int] == ch2[cj as int].id());
            assert(bare_row(ch2)[cj as int] == ch2[cj as int].bare());
            lemma_way_on(keys, ch, h, lo, hi, l, rt, n, cj as int);
        }
        if cj >= left && cj - left < fit.len() && !fit[cj - left] {
            return Err(TreeError::PageFull);
        }
        let node = Node::Internal(internal);
        proof {
            assert(node@ == NodeView::Internal(k2, row_ids(ch2)));
            lemma_roomy(node@, m1.bare());
        }
        if !node.packs() {
            return Err(TreeError::PageFull);
        }
        let head = node.headed();
        let tidy = node.fits() && others_hold(&fit, left, cj);
        proof {
            let d = bare_row(ch2);
            assert forall|i: int| 0 <= i < d.len() implies #[trigger] neat(d[i]) == (l <= i < l + n
                ==> fit@[i - l]) by {
                lemma_way_on(keys, ch, h, lo, hi, l, rt, n, i);
            }
            lemma_others(d, fit@, l, cj as int);
        }
        proof {
            assert(pool.touched().contains(f));
            assert(pool.at(f) == Some(id));
            assert(ch2[0].stored(p1));
            assert(row_ids(ch2)[0] == ch2[0].id());
        }
        pool.set_page(guard, Page(node.serialize()));
        proof {
            lemma_rebuilt_node(id, keys, ch, k2, ch2, p, p1, pool.pages());
        }
        Ok((next_id, head, tidy, Ghost(m1)))
    }

    /// Goes on to the child on the way to `key`: makes it ready, holds it, and lets go of the
    /// node above it.
    #[verifier::rlimit(50)]
    fn step_down(
        pool: &mut BufferPoolManager<M>,
        guard: WriteGuard,
        key: &Key,
        adds: bool,
        t: usize,
        beside: bool,
        Ghost(m): Ghost<PagedTree>,
        Ghost(h): Ghost<nat>,
        Ghost(lo): Ghost<Option<Seq<u8>>>,
        Ghost(hi): Ghost<Option<Seq<u8>>>,
    ) -> (r: Result<(WriteGuard, bool, bool, Ghost<PagedTree>), TreeError<M::Error>>)
        requires
            old(pool).wf(),
            old(pool).whole(),
            only(old(pool), guard.frame()),
            old(pool).at(guard.frame()) == Some(m.id()),
            old(pool).room() > 0,
            2 <= t,
            6 * t <= usize::MAX,
            m is Node,
            m.stored(old(pool).pages()),
            m.distinct(),
            sorted_tree(m.bare(), h, lo, hi),
            within(lo, key@, hi),
            open_way(m.bare(), key@, t as int, adds),
            beside == neat_but(m.bare(), left_route(m->Node_1, key@) as int),
        ensures
            r matches Ok(x) ==> {
                let keys = m->Node_1;
                let bare = bare_row(m.kids());
                let m1 = x.3@;
                let cj = next_child(keys, bare, key@, t as int, adds);
                &&& moved(
                    final(pool),
                    old(pool),
                    if tense(bare[left_route(keys, key@) as int].count() as int, t as int, adds) {
                        window_pages_moved(bare, left_route(keys, key@) as int, t as int)
                    } else {
                        (0nat, 0nat)
                    },
                )
                &&& final(pool).wf()
                &&& final(pool).whole()
                &&& only(final(pool), x.0.frame())
                &&& final(pool).frames() == old(pool).frames()
                &&& final(pool).reliable() == old(pool).reliable()
                &&& final(pool).room() + 1 >= old(pool).room()
                &&& can_step(keys, bare, key@, t as int, adds)
                &&& rebuilt_tree(m, m1, old(pool).pages(), final(pool).pages())
                &&& m1 is Node
                &&& m1.bare() == readied(keys, bare, key@, t as int, adds)
                &&& 0 <= cj < m1.kids().len()
                &&& x.1 == headed(m1.bare())
                &&& x.2 == neat_but(m1.bare(), cj)
                &&& neat(m1.kids()[cj].bare())
                &&& final(pool).at(x.0.frame()) == Some(m1.kids()[cj].id())
            },
            old(pool).reliable() && old(pool).frames() >= 2 && can_step(
                m->Node_1,
                bare_row(m.kids()),
                key@,
                t as int,
                adds,
            ) ==> r is Ok,
            r is Err ==> let_down(final(pool), old(pool)),
            r matches Err(e) ==> {
                let keys = m->Node_1;
                let bare = bare_row(m.kids());
                let ci = left_route(keys, key@) as int;
                let can = can_rebalance(keys, bare, ci, t as int, 2 * t - 1);
                ||| e is Pool && !(old(pool).reliable() && old(pool).frames() >= 2)
                ||| e is EmptyLeaf && tense(bare[ci].count() as int, t as int, adds) && !can
                ||| e is PageFull && tense(bare[ci].count() as int, t as int, adds) && can && !can_ready(
                    keys,
                    bare,
                    ci,
                    key@,
                    t as int,
                )
            },
    {
        let ghost f = guard.frame();
        let ghost p = pool.pages();
        let ghost keys = m->Node_1;
        let ghost ch = m.kids();
        let ghost bare = bare_row(ch);
        proof {
            pool.lemma_at(f, m.id());
            lemma_bare(m);
            lemma_stored_node(m, p);
        }
        let (ci, child_id) = {
            let page = SlottedPage(&pool.page_of(&guard).0);
            page.internal_route(key.as_bytes())
        };
        proof {
            lemma_route_page(p[m.id()], keys, row_ids(ch), key@, ci as int, child_id, h, lo, hi, bare);
            assert(row_ids(ch)[ci as int] == ch[ci as int].id());
            assert(bare[ci as int] == ch[ci as int].bare());
            lemma_stored_node(ch[ci as int], p);
            lemma_page_count(ch[ci as int], p);
        }
        let count = match Self::peek_count(pool, child_id) {
            Ok(count) => count,
            Err(e) => {
                let ghost fail = *pool;
                assert(pool.touched().contains(f));
                pool.release_written(guard);
                proof {
                    lemma_idle(pool, &fail, f);
                }
                return Err(e);
            },
        };
        let is_tense = if adds {
            count == 2 * t - 1
        } else {
            count <= t - 1
        };
        assert(is_tense == tense(bare[ci as int].count() as int, t as int, adds));
        let (next_id, head, tidy, Ghost(m1)) = if is_tense {
            proof {
                assert forall|i: int| 0 <= i < ch.len() implies neat((#[trigger] ch[i]).bare()) by {
                    assert(bare[i] == ch[i].bare());
                }
            }
            match Self::ready_child(
                pool,
                &guard,
                key,
                ci,
                t,
                Ghost(m),
                Ghost(h),
                Ghost(lo),
                Ghost(hi),
            ) {
                Ok(x) => x,
                Err(e) => {
                    let ghost fail = *pool;
                    assert(pool.touched().contains(f));
                    pool.release_written(guard);
                    proof {
                        lemma_idle(pool, &fail, f);
                    }
                    return Err(e);
                },
            }
        } else {
            proof {
                lemma_rebuilt_same(m, p);
                lemma_headed(m.bare());
            }
            (child_id, true, beside, Ghost(m))
        };
        let ghost cj = next_child(keys, bare, key@, t as int, adds);
        proof {
            lemma_bare(m1);
            lemma_readied(keys, bare, h, lo, hi, key@, t as int, adds);
            assert(bare_row(m1.kids()).len() == m1.kids().len());
            assert(m1.kids()[cj].stored(pool.pages()));
            assert(bare_row(m1.kids())[cj] == m1.kids()[cj].bare());
            lemma_stored_node(m1.kids()[cj], pool.pages());
            assert(next_id == m1.kids()[cj].id());
            pool.lemma_whole(next_id);
            if pool.reliable() && pool.frames() >= 2 {
                pool.lemma_not_full();
            }
            assert(m1.kids()[cj].owns(next_id));
            assert(!m1.kids()[cj].owns(m1.id()));
        }
        let ghost mid = *pool;
        let next_guard = match pool.write(next_id) {
            Ok(g) => g,
            Err(e) => {
                let ghost fail = *pool;
                assert(pool.touched().contains(f));
                pool.release_written(guard);
                proof {
                    lemma_idle(pool, &fail, f);
                }
                return Err(TreeError::Pool(e));
            },
        };
        let ghost f2 = next_guard.frame();
        proof {
            assert(mid.at(f) == Some(m.id()));
            assert(mid.pins()[f] == 1);
            assert(pool.at(f) == mid.at(f));
            assert(f2 != f);
            assert(pool.touched().contains(f));
        }
        let ghost mid2 = *pool;
        pool.release_written(guard);
        proof {
            assert(pool.touched() =~= Set::<int>::empty().insert(f2));
            assert(pool.at(f2) == mid2.at(f2));
        }
        Ok((next_guard, head, tidy, Ghost(m1)))
    }

    /// Puts a value under a key, or takes the key out, below a node that is held; lets go of it.
    #[verifier::rlimit(50)]
    fn edit_at(
        pool: &mut BufferPoolManager<M>,
        guard: WriteGuard,
        key: &Key,
        value: Option<Vec<u8>>,
        t: usize,
        beside: bool,
        Ghost(m): Ghost<PagedTree>,
        Ghost(h): Ghost<nat>,
        Ghost(lo): Ghost<Option<Seq<u8>>>,
        Ghost(hi): Ghost<Option<Seq<u8>>>,
    ) -> (r: Result<(bool, Option<Vec<u8>>, bool, bool, Ghost<PagedTree>), TreeError<M::Error>>)
        requires
            old(pool).wf(),
            old(pool).whole(),
            only(old(pool), guard.frame()),
            old(pool).at(guard.frame()) == Some(m.id()),
            old(pool).room() >= h,
            2 <= t,
            6 * t <= usize::MAX,
            m.stored(old(pool).pages()),
            m.distinct(),
            sorted_tree(m.bare(), h, lo, hi),
            within(lo, key@, hi),
            open_way(m.bare(), key@, t as int, value is Some),
            m is Node ==> beside == neat_but(m.bare(), left_route(m->Node_1, key@) as int),
        ensures
            r matches Ok(x) ==> {
                let v = opt_view(value);
                let e = edit_leaf(m.bare(), h, key@, t as int, v is Some);
                &&& done(old(pool), final(pool), h)
                &&& moved(final(pool), old(pool), edit_pages(m.bare(), h, key@, v, t as int))
                &&& rebuilt_tree(m, x.4@, old(pool).pages(), final(pool).pages())
                &&& can_edit(m.bare(), h, key@, v, t as int)
                &&& x.4@.bare() == edit(m.bare(), h, key@, v, t as int)
                &&& x.2 == headed(x.4@.bare())
                &&& x.3 == neat(x.4@.bare())
                &&& x.0 == (v is Some && !found(e, key@))
                &&& opt_view(x.1) == if v is Some {
                    None
                } else {
                    get(e, key@)
                }
            },
            (h == 0 || old(pool).reliable() && old(pool).frames() >= 2) && can_edit(
                m.bare(),
                h,
                key@,
                opt_view(value),
                t as int,
            ) ==> r is Ok,
            r is Err ==> let_down(final(pool), old(pool)),
            r matches Err(e) ==> {
                let v = opt_view(value);
                ||| e is Pool && h > 0 && !(old(pool).reliable() && old(pool).frames() >= 2)
                ||| e is EmptyLeaf && starved(m.bare(), h, key@, v, t as int)
                ||| e is PageFull && !starved(m.bare(), h, key@, v, t as int) && !can_edit(
                    m.bare(),
                    h,
                    key@,
                    v,
                    t as int,
                )
            },
        decreases h,
    {
        let ghost f = guard.frame();
        let ghost p = pool.pages();
        proof {
            pool.lemma_at(f, m.id());
            lemma_bare(m);
            lemma_stored_node(m, p);
        }
        let is_leaf = SlottedPage(&pool.page_of(&guard).0).is_leaf();
        if is_leaf {
            assert(m is Leaf);
            return Self::edit_leaf_page(
                pool,
                guard,
                key,
                value,
                Ghost(m),
                Ghost(lo),
                Ghost(hi),
            );
        }
        assert(m is Node);
        let ghost keys = m->Node_1;
        let ghost bare = bare_row(m.kids());
        let adds = value.is_some();
        let (next_guard, head, tidy, Ghost(m1)) = Self::step_down(
            pool,
            guard,
            key,
            adds,
            t,
            beside,
            Ghost(m),
            Ghost(h),
            Ghost(lo),
            Ghost(hi),
        )?;
        let ghost p1 = pool.pages();
        let ghost cj = next_child(keys, bare, key@, t as int, adds);
        let ghost k2 = m1->Node_1;
        let ghost ch2 = m1.kids();
        let ghost c = ch2[cj];
        let ghost lo1 = child_lo(k2, cj, lo);
        let ghost hi1 = child_hi(k2, cj, hi);
        proof {
            lemma_bare(m1);
            lemma_readied(keys, bare, h, lo, hi, key@, t as int, adds);
            assert(bare_row(ch2)[cj] == c.bare());
            assert(c.stored(p1));
            assert(c.distinct());
            lemma_open_way(c.bare(), (h - 1) as nat, lo1, hi1, key@, t as int, adds);
            lemma_bare(c);
            lemma_neat_but(c.bare());
        }
        let (added, removed, _, tidy_below, Ghost(c2)) = Self::edit_at(
            pool,
            next_guard,
            key,
            value,
            t,
            true,
            Ghost(c),
            Ghost((h - 1) as nat),
            Ghost(lo1),
            Ghost(hi1),
        )?;
        let ghost m2 = PagedTree::Node(m.id(), k2, ch2.update(cj, c2));
        proof {
            lemma_rebuilt_child(m.id(), k2, ch2, cj, c2, p1, pool.pages());
            lemma_rebuilt_twice(m, m1, m2, p, p1, pool.pages());
            lemma_bare(m2);
            lemma_headed_keys(m1.bare(), m2.bare());
            lemma_neat_update(k2, bare_row(ch2), cj, c2.bare());
        }
        Ok((added, removed, head, tidy && tidy_below, Ghost(m2)))
    }

    /// Splits a full root that is held, and holds the new root in its place.
    #[verifier::rlimit(50)]
    fn split_root(
        pool: &mut BufferPoolManager<M>,
        root: PageId,
        guard: WriteGuard,
        key: &Key,
        t: usize,
        Ghost(m): Ghost<PagedTree>,
        Ghost(h): Ghost<nat>,
    ) -> (r: Result<(PageId, WriteGuard, bool, Ghost<PagedTree>), TreeError<M::Error>>)
        requires
            old(pool).wf(),
            old(pool).whole(),
            only(old(pool), guard.frame()),
            root == m.id(),
            old(pool).at(guard.frame()) == Some(root),
            old(pool).room() >= 2,
            2 <= t,
            m.stored(old(pool).pages()),
            m.distinct(),
            m.linked(None),
            sorted_tree(m.bare(), h, None, None),
            m.bare().count() == 2 * t - 1,
            neat(m.bare()),
        ensures
            r matches Ok(x) ==> {
                &&& moved(final(pool), old(pool), (2, 0))
                &&& final(pool).wf()
                &&& final(pool).whole()
                &&& only(final(pool), x.1.frame())
                &&& final(pool).at(x.1.frame()) == Some(x.0)
                &&& final(pool).frames() == old(pool).frames()
                &&& final(pool).reliable() == old(pool).reliable()
                &&& final(pool).room() + 2 >= old(pool).room()
                &&& can_split(m.bare(), key@, t as int)
                &&& x.3@.id() == x.0
                &&& open_way(x.3@.bare(), key@, t as int, true)
                &&& x.2 == neat_but(x.3@.bare(), left_route(x.3@->Node_1, key@) as int)
                &&& x.3@ is Node
                &&& x.3@.bare() == split_root(m.bare(), t as int)
                &&& x.3@.stored(final(pool).pages())
                &&& x.3@.distinct()
                &&& x.3@.linked(None)
            },
            old(pool).reliable() && old(pool).frames() >= 2 && can_split(m.bare(), key@, t as int) ==> r is Ok,
            r is Err ==> let_down(final(pool), old(pool)),
            r matches Err(e) ==> {
                ||| e is Pool && !(old(pool).reliable() && old(pool).frames() >= 2)
                ||| e is PageFull && !can_split(m.bare(), key@, t as int)
            },
    {
        let ghost f = guard.frame();
        let ghost p = pool.pages();
        proof {
            pool.lemma_at(f, root);
            lemma_bare(m);
            lemma_stored_node(m, p);
        }
        let node = Node::deserialize(&pool.page_of(&guard).0);
        proof {
            assert(node@ == m.shape());
            lemma_view_count(m, node);
        }
        let new_root_id = match Self::allocate_internal(pool) {
            Ok(id) => id,
            Err(e) => {
                let ghost fail = *pool;
                assert(pool.touched().contains(f));
                pool.release_written(guard);
                proof {
                    lemma_idle(pool, &fail, f);
                }
                return Err(e);
            },
        };
        let ghost pool1 = *pool;
        let right_page = if node.is_leaf() {
            Self::allocate_leaf(pool)
        } else {
            Self::allocate_internal(pool)
        };
        let right_id = match right_page {
            Ok(id) => id,
            Err(e) => {
                let ghost fail = *pool;
                assert(pool.touched().contains(f));
                pool.release_written(guard);
                proof {
                    lemma_idle(pool, &fail, f);
                }
                return Err(e);
            },
        };
        let ghost pool2 = *pool;
        let ghost n = over_halves(m, t as int, right_id, new_root_id);
        let ghost l = left_tree(m, t as int, right_id);
        let ghost r = right_tree(m, t as int, right_id);
        proof {
            lemma_half_shapes(m, t as int, right_id, new_root_id);
            lemma_roomy(l.shape(), l.bare());
            lemma_roomy(r.shape(), r.bare());
            lemma_roomy(n.shape(), n.bare());
            lemma_quiet(&pool2, &pool1, old(pool));
            lemma_halves_sound(m, t as int, right_id, p);
        }
        let (left, promoted_key, right) = split_node(node, t, right_id);
        let goes_right = match compare(promoted_key.as_bytes(), key.as_bytes()) {
            Rank::Below => true,
            _ => false,
        };
        let way_fits = if goes_right {
            right.fits()
        } else {
            left.fits()
        };
        let sibling_fits = if goes_right {
            left.fits()
        } else {
            right.fits()
        };
        let new_root = make_root(promoted_key.clone(), root, right_id);
        proof {
            assert(new_root@ == n.shape());
            lemma_split_way(m.bare(), h, key@, t as int);
            assert(n.bare() == split_root(m.bare(), t as int));
            assert(n.shape()->Internal_0 =~= seq![promoted_key@]);
            lemma_bare(n);
            assert(n.bare()->Internal_0 == n.shape()->Internal_0);
            assert(seq![promoted_key@][0] == seq![cut(m.bare(), split_at(m.bare(), t as int)).1][0]);
            assert(goes_right == bytes_lt(promoted_key@, key@)) by {
                lemma_bytes_order();
            }
        }
        if !left.packs() || !right.packs() || !way_fits || !new_root.fits() {
            let ghost fail = *pool;
            assert(pool.touched().contains(f));
            pool.release_written(guard);
            proof {
                lemma_idle(pool, &fail, f);
            }
            return Err(TreeError::PageFull);
        }
        proof {
            assert(pool.touched().contains(f));
            assert(pool.at(f) == Some(root));
        }
        pool.set_page(&guard, Page(left.serialize()));
        proof {
            assert(pool.at(f) == Some(root));
            lemma_only_unheld(pool, f, root, right_id);
            lemma_only_unheld(pool, f, root, new_root_id);
        }
        let ghost pool3 = *pool;
        if let Err(e) = Self::write_node(pool, right_id, &right) {
            let ghost fail = *pool;
            assert(pool.touched().contains(f));
            pool.release_written(guard);
            proof {
                lemma_idle(pool, &fail, f);
            }
            return Err(e);
        }
        proof {
            lemma_unheld(pool, &pool3, new_root_id);
        }
        let ghost pool4 = *pool;
        if let Err(e) = Self::write_node(pool, new_root_id, &new_root) {
            let ghost fail = *pool;
            assert(pool.touched().contains(f));
            pool.release_written(guard);
            proof {
                lemma_idle(pool, &fail, f);
            }
            return Err(e);
        }
        proof {
            assert(pool.pages() =~= p.insert(root, left@.image()).insert(
                right_id,
                right@.image(),
            ).insert(new_root_id, new_root@.image()));
            lemma_over_halves(m, t as int, right_id, new_root_id, p, pool.pages());
            lemma_quiet(pool, &pool4, &pool3);
            assert(pool.at(f) == pool3.at(f));
        }
        let ghost pool5 = *pool;
        proof {
            assert(pool.touched().contains(f));
        }
        pool.release_written(guard);
        proof {
            lemma_idle(pool, &pool5, f);
            pool.lemma_whole(new_root_id);
            if pool.reliable() && pool.frames() >= 2 {
                pool.lemma_not_full();
            }
        }
        let ghost pool6 = *pool;
        let new_guard = match pool.write(new_root_id) {
            Ok(g) => g,
            Err(e) => {
                proof {
                    pool.lemma_frames();
                }
                return Err(TreeError::Pool(e));
            },
        };
        proof {
            lemma_now_only(pool, &pool6, new_guard.frame(), new_root_id);
        }
        Ok((new_root_id, new_guard, sibling_fits, Ghost(n)))
    }
}

impl<M: Medium> BPlusTree<M> {
    /// The tree that holds the entries.
    pub closed spec fn tree(&self) -> ByteTree {
        self.shape@.bare()
    }

    /// The entries, from left to right.
    pub open spec fn view(&self) -> Seq<Entry> {
        self.tree().contents()
    }

    /// The depth of the leaves.
    pub closed spec fn height(&self) -> nat {
        self.height@
    }

    /// The minimum degree.
    pub closed spec fn degree(&self) -> int {
        self.t as int
    }

    /// How many pages the medium can still hand out.
    pub closed spec fn room(&self) -> nat {
        self.pool.room()
    }

    /// The medium is reliable.
    pub closed spec fn reliable(&self) -> bool {
        self.pool.reliable()
    }

    /// How many frames the pool has.
    pub closed spec fn frames(&self) -> nat {
        self.pool.frames()
    }

    /// Requests to the pool do not fail: the medium is reliable, and there are frames for a node
    /// and its child.
    pub open spec fn calm(&self) -> bool {
        self.reliable() && self.frames() >= 2
    }

    /// The medium has handed out `n.0` pages and taken back `n.1` since `o`, if it keeps a record of
    /// its requests.
    pub closed spec fn moved(&self, o: &Self, n: (nat, nat)) -> bool {
        moved(&self.pool, &o.pool, n)
    }

    /// Requests to the pool do not fail: the medium is reliable, and there is a frame, and another
    /// one where a node is held together with its child.
    pub open spec fn serves(&self, deep: bool) -> bool {
        self.reliable() && self.frames() >= if deep {
            2nat
        } else {
            1
        }
    }

    /// Page `id` is in a frame of the pool.
    pub closed spec fn at_hand(&self, id: PageId) -> bool {
        self.pool.at_hand(id)
    }

    /// Page `id` was not read when it was asked for, and the pool cannot bring it in any more.
    pub closed spec fn lost(&self, id: PageId) -> bool {
        self.pool.stale(id)
    }

    /// The pool has no frame for another page.
    pub closed spec fn crowded(&self) -> bool {
        self.pool.full()
    }

    /// The medium keeps a record of its requests, and the last of them has not failed.
    pub closed spec fn well_served(&self) -> bool {
        self.pool.records() && !self.pool.failing()
    }

    /// Nobody holds a page of the pool.
    pub closed spec fn at_rest(&self) -> bool {
        self.pool.wf() && idle(&self.pool)
    }

    /// All nodes of the tree are on their pages, and nobody holds one.
    pub closed spec fn laid_out(&self) -> bool {
        &&& 2 <= self.t
        &&& 6 * self.t <= usize::MAX
        &&& self.pool.wf()
        &&& self.pool.plain()
        &&& idle(&self.pool)
        &&& self.shape@.id() == self.root
        &&& self.shape@.stored(self.pool.pages())
        &&& self.shape@.distinct()
        &&& self.shape@.linked(None)
        &&& sorted_tree(self.shape@.bare(), self.height@, None, None)
        &&& self.len == self.shape@.bare().contents().len()
        &&& self.tidy == neat(self.shape@.bare())
    }

    /// The tree is laid out, and all its nodes fit on their pages, so that they can be read back.
    pub open spec fn readable(&self) -> bool {
        self.laid_out() && neat(self.tree())
    }

    /// No request to the medium has failed.
    pub closed spec fn unfailed(&self) -> bool {
        self.pool.whole()
    }

    /// What every operation keeps: the tree is readable, and no request to the medium has failed.
    pub open spec fn wf(&self) -> bool {
        self.readable() && self.unfailed()
    }

    /// No page on the way is lost.
    pub closed spec fn clear_way(&self, w: Way) -> bool {
        clear(self.shape@, w, &self.pool)
    }

    /// No request to the medium has failed, or at least no page on the way is lost.
    pub open spec fn passable(&self, w: Way) -> bool {
        self.unfailed() || self.clear_way(w)
    }

    /// Where no request to the medium has failed, no page is lost, and the pool has a frame for
    /// every page if it has any.
    pub proof fn lemma_unfailed(&self)
        requires
            self.wf(),
        ensures
            forall|id: PageId| !#[trigger] self.lost(id),
            forall|w: Way| #[trigger] self.clear_way(w),
            self.frames() > 0 ==> !self.crowded(),
    {
        assert forall|w: Way| #[trigger] self.clear_way(w) by {
            lemma_whole_clear(self.shape@, w, &self.pool);
        }
        assert forall|id: PageId| !#[trigger] self.lost(id) by {
            self.pool.lemma_whole(id);
        }
        if self.frames() > 0 {
            self.pool.lemma_not_full();
        }
    }

    /// The tree is one on which operations are made.
    pub proof fn lemma_wf(&self)
        requires
            self.wf(),
        ensures
            self.degree() >= 2,
            sorted_tree(self.tree(), self.height(), None, None),
    {
    }

    /// An empty tree on the pages of a pool.
    pub fn new(t: usize, store: BufferPoolManager<M>) -> (r: Result<Self, BpmError<M::Error>>)
        requires
            2 <= t,
            6 * t <= usize::MAX,
            store.wf(),
            store.whole(),
            idle(&store),
            store.room() > 0,
        ensures
            r matches Ok(tree) ==> {
                &&& tree.wf()
                &&& tree.tree() == Tree::<Seq<u8>, Seq<u8>>::Leaf(Seq::empty())
                &&& tree.height() == 0
                &&& tree.degree() == t
                &&& tree.room() + 1 >= store.room()
                &&& tree.reliable() == store.reliable()
                &&& tree.frames() == store.frames()
            },
            store.frames() == 0 ==> r is Err,
            store.reliable() && store.frames() >= 1 ==> r is Ok,
            r matches Err(e) ==> {
                ||| e is BufferFull && store.frames() == 0
                ||| e is Medium && !store.reliable()
            },
    {
        let mut store = store;
        proof {
            if store.frames() > 0 {
                store.lemma_not_full();
            } else {
                store.lemma_no_frames();
            }
        }
        let root = match Self::allocate_leaf(&mut store) {
            Ok(id) => id,
            Err(TreeError::Pool(e)) => {
                return Err(e);
            },
            Err(_) => unreached(),
        };
        let ghost m = PagedTree::Leaf(root, Seq::empty(), None);
        proof {
            lemma_round_trip(m.shape());
            assert(m.on_page(store.pages()));
        }
        proof {
            store.lemma_plain();
        }
        Ok(Self { t, root, len: 0, tidy: true, pool: store, shape: Ghost(m), height: Ghost(0) })
    }

    pub fn len(&self) -> (r: usize)
        requires
            self.laid_out(),
        ensures
            r == self@.len(),
    {
        self.len
    }

    /// Whether all nodes of the tree fit on their pages, so that it can be read.
    pub fn is_neat(&self) -> (r: bool)
        requires
            self.laid_out(),
        ensures
            r == neat(self.tree()),
    {
        self.tidy
    }

    pub fn is_empty(&self) -> (r: bool)
        requires
            self.laid_out(),
        ensures
            r == (self@.len() == 0),
    {
        self.len() == 0
    }

    /// Puts `value` under `key`.
    #[verifier::rlimit(50)]
    pub fn insert(&mut self, key: Key, value: Vec<u8>) -> (r: Result<(), TreeError<M::Error>>)
        requires
            old(self).wf(),
            old(self)@.len() < usize::MAX,
            old(self).room() >= old(self).height() + 3,
        ensures
            r is Ok ==> {
                &&& final(self).laid_out()
                &&& final(self).unfailed()
                &&& final(self).moved(
                    old(self),
                    insert_pages(
                        old(self).tree(),
                        old(self).height(),
                        key@,
                        value@,
                        old(self).degree(),
                    ),
                )
                &&& final(self).degree() == old(self).degree()
                &&& final(self).reliable() == old(self).reliable()
                &&& final(self).frames() == old(self).frames()
                &&& final(self).room() + old(self).height() + 3 >= old(self).room()
                &&& can_insert(old(self).tree(), old(self).height(), key@, value@, old(self).degree())
                &&& final(self).tree() == inserted(
                    old(self).tree(),
                    old(self).height(),
                    key@,
                    value@,
                    old(self).degree(),
                )
                &&& final(self).height() == insert_height(
                    old(self).tree(),
                    old(self).height(),
                    old(self).degree(),
                )
            },
            old(self).serves(
                old(self).height() > 0 || old(self).tree().count() == 2 * old(self).degree() - 1,
            ) ==> (r is Ok <==> can_insert(
                old(self).tree(),
                old(self).height(),
                key@,
                value@,
                old(self).degree(),
            )),
            r is Err ==> final(self).at_rest(),
            r matches Err(e) ==> {
                let m = old(self).tree();
                let h = old(self).height();
                let t = old(self).degree();
                ||| e is Pool && !old(self).serves(h > 0 || m.count() == 2 * t - 1)
                ||| e is EmptyLeaf && insert_starved(m, h, key@, value@, t)
                ||| e is PageFull && !insert_starved(m, h, key@, value@, t) && !can_insert(
                    m,
                    h,
                    key@,
                    value@,
                    t,
                )
            },
    {
        let max_keys = 2 * self.t - 1;
        let ghost m0 = self.shape@;
        let ghost h0 = self.height@;
        let ghost pool0 = self.pool;
        proof {
            self.pool.lemma_whole(self.root);
            if self.frames() >= 1 {
                self.pool.lemma_not_full();
            }
        }
        let mut guard = match self.pool.write(self.root) {
            Ok(g) => g,
            Err(e) => {
                return Err(TreeError::Pool(e));
            },
        };
        proof {
            lemma_now_only(&self.pool, &pool0, guard.frame(), self.root);
            self.pool.lemma_at(guard.frame(), self.root);
            lemma_stored_node(m0, self.pool.pages());
            lemma_page_count(m0, self.pool.pages());
            lemma_open_way(m0.bare(), h0, None, None, key@, self.t as int, true);
            lemma_bare(m0);
            lemma_neat_but(m0.bare());
        }
        let count = SlottedPage(&self.pool.page_of(&guard).0).cell_count();
        let mut beside = true;
        if count == max_keys {
            let (new_root, new_guard, sibling_fits, Ghost(m1)) = Self::split_root(
                &mut self.pool,
                self.root,
                guard,
                &key,
                self.t,
                Ghost(m0),
                Ghost(h0),
            )?;
            proof {
                lemma_split_root(m0.bare(), h0, self.t as int);
            }
            self.root = new_root;
            self.shape = Ghost(m1);
            self.height = Ghost(h0 + 1);
            guard = new_guard;
            beside = sibling_fits;
        }
        let ghost m1 = self.shape@;
        let ghost h1 = self.height@;
        let (added, _, _, tidy, Ghost(m2)) = Self::edit_at(
            &mut self.pool,
            guard,
            &key,
            Some(value),
            self.t,
            beside,
            Ghost(m1),
            Ghost(h1),
            Ghost(None),
            Ghost(None),
        )?;
        self.shape = Ghost(m2);
        self.tidy = tidy;
        proof {
            lemma_edit(m1.bare(), h1, None, None, key@, Some(value@), self.t as int);
            lemma_edit_len(m1.bare(), h1, None, None, key@, Some(value@), self.t as int);
        }
        if added {
            self.len = self.len + 1;
        }
        proof {
            self.pool.lemma_plain();
        }
        Ok(())
    }

    /// Takes the entry under `key` out and hands its value back.
    #[verifier::rlimit(50)]
    pub fn remove(&mut self, key: &Key) -> (r: Result<Option<Vec<u8>>, TreeError<M::Error>>)
        requires
            old(self).wf(),
            old(self).room() >= old(self).height(),
        ensures
            r matches Ok(v) ==> {
                &&& final(self).laid_out()
                &&& final(self).unfailed()
                &&& final(self).moved(
                    old(self),
                    edit_pages(old(self).tree(), old(self).height(), key@, None, old(self).degree()),
                )
                &&& final(self).degree() == old(self).degree()
                &&& final(self).reliable() == old(self).reliable()
                &&& final(self).frames() == old(self).frames()
                &&& final(self).room() + old(self).height() >= old(self).room()
                &&& can_remove(old(self).tree(), old(self).height(), key@, old(self).degree())
                &&& final(self).tree() == removed(
                    old(self).tree(),
                    old(self).height(),
                    key@,
                    old(self).degree(),
                )
                &&& final(self).height() == removed_height(
                    old(self).tree(),
                    old(self).height(),
                    key@,
                    old(self).degree(),
                )
                &&& opt_view(v) == get(
                    edit_leaf(old(self).tree(), old(self).height(), key@, old(self).degree(), false),
                    key@,
                )
            },
            old(self).serves(old(self).height() > 0) ==> (r is Ok <==> can_remove(
                old(self).tree(),
                old(self).height(),
                key@,
                old(self).degree(),
            )),
            r is Err ==> final(self).at_rest(),
            r matches Err(e) ==> {
                let m = old(self).tree();
                let h = old(self).height();
                let t = old(self).degree();
                ||| e is Pool && !old(self).serves(h > 0)
                ||| e is EmptyLeaf && starved(m, h, key@, None, t)
                ||| e is PageFull && !starved(m, h, key@, None, t) && !can_remove(m, h, key@, t)
            },
    {
        let ghost m0 = self.shape@;
        let ghost h0 = self.height@;
        let ghost pool0 = self.pool;
        proof {
            self.pool.lemma_whole(self.root);
            if self.frames() >= 1 {
                self.pool.lemma_not_full();
            }
        }
        let guard = match self.pool.write(self.root) {
            Ok(g) => g,
            Err(e) => {
                return Err(TreeError::Pool(e));
            },
        };
        proof {
            lemma_now_only(&self.pool, &pool0, guard.frame(), self.root);
            lemma_open_way(m0.bare(), h0, None, None, key@, self.t as int, false);
            lemma_bare(m0);
            lemma_neat_but(m0.bare());
        }
        let (_, removed_value, head, tidy, Ghost(m1)) = Self::edit_at(
            &mut self.pool,
            guard,
            key,
            None,
            self.t,
            true,
            Ghost(m0),
            Ghost(h0),
            Ghost(None),
            Ghost(None),
        )?;
        if !head {
            proof {
                lemma_not_starved(m0.bare(), h0, key@, None, self.t as int);
            }
            return Err(TreeError::PageFull);
        }
        self.shape = Ghost(m1);
        self.tidy = tidy;
        let ghost pool1 = self.pool;
        proof {
            lemma_edit(m0.bare(), h0, None, None, key@, None, self.t as int);
            lemma_edit_len(m0.bare(), h0, None, None, key@, None, self.t as int);
            lemma_trimmed(m1.bare(), h0);
            lemma_bare(m1);
            self.pool.lemma_whole(self.root);
            if self.frames() >= 1 {
                self.pool.lemma_not_full();
            }
        }
        let root_guard = match self.pool.write(self.root) {
            Ok(g) => g,
            Err(e) => {
                return Err(TreeError::Pool(e));
            },
        };
        proof {
            lemma_now_only(&self.pool, &pool1, root_guard.frame(), self.root);
            self.pool.lemma_at(root_guard.frame(), self.root);
            lemma_root_head(m1, self.pool.pages());
        }
        let page = SlottedPage(&self.pool.page_of(&root_guard).0);
        let shrinks = !page.is_leaf() && page.cell_count() == 0;
        let new_root = page.leftmost_child();
        let ghost pool2 = self.pool;
        proof {
            assert(self.pool.touched().contains(root_guard.frame()));
        }
        self.pool.release_written(root_guard);
        proof {
            lemma_idle(&self.pool, &pool2, root_guard.frame());
        }
        if shrinks {
            proof {
                let ch = m1.kids();
                assert(m1 is Node);
                assert(row_ids(ch)[0] == ch[0].id());
                assert(new_root == ch[0].id());
                assert(ch[0].stored(self.pool.pages()));
                assert(ch[0].distinct());
                assert(ch[0].linked(after(ch, 0, None)));
                assert(bare_row(ch)[0] == ch[0].bare());
                lemma_neat_single(m1.bare());
            }
            self.root = new_root;
            self.shape = Ghost(m1.kids()[0]);
            self.height = Ghost((h0 - 1) as nat);
        }
        if removed_value.is_some() {
            self.len = self.len - 1;
        }
        proof {
            self.pool.lemma_plain();
        }
        Ok(removed_value)
    }

    /// Looks a key up below a node that is held; lets go of it.
    #[verifier::rlimit(50)]
    fn search_at(
        pool: &mut BufferPoolManager<M>,
        guard: ReadGuard,
        key: &Key,
        Ghost(m): Ghost<PagedTree>,
        Ghost(h): Ghost<nat>,
        Ghost(lo): Ghost<Option<Seq<u8>>>,
        Ghost(hi): Ghost<Option<Seq<u8>>>,
    ) -> (r: Result<Option<Vec<u8>>, TreeError<M::Error>>)
        requires
            old(pool).wf(),
            old(pool).plain(),
            only_read(old(pool), guard.frame()),
            old(pool).at(guard.frame()) == Some(m.id()),
            m.stored(old(pool).pages()),
            m.distinct(),
            sorted_tree(m.bare(), h, lo, hi),
            neat_way(m.bare(), Way::To(key@)),
        ensures
            left_off(final(pool), old(pool)),
            r is Ok && clear_below(m, Way::To(key@), old(pool)) ==> looked_up(
                seek(m.bare(), h, key@),
                key@,
                opt_view(r->Ok_0),
            ),
            r is Ok && old(pool).whole() ==> final(pool).whole(),
            old(pool).whole() && (h == 0 || old(pool).reliable() && old(pool).frames() >= 2) ==> r is Ok,
            r matches Err(e) ==> e is Pool || e is Unreadable,
            clear_below(m, Way::To(key@), old(pool)) ==> !(r matches Err(e) && e is Unreadable),
        decreases h,
    {
        let ghost f = guard.frame();
        let ghost p = pool.pages();
        proof {
            pool.lemma_at(f, m.id());
            lemma_bare(m);
            lemma_stored_node(m, p);
        }
        let page = SlottedPage(&pool.page(&guard).0);
        if page.is_leaf() {
            let ghost e = m->Leaf_1;
            assert(m is Leaf);
            proof {
                let b = p[m.id()];
                assert forall|i: int| 0 <= i < count_of(b) implies #[trigger] leaf_key_ok(b, i) by {
                    assert(leaf_cell_ok(b, i));
                }
            }
            let found_at = page.leaf_find(key.as_bytes());
            proof {
                lemma_leaf_halved(p[m.id()], e, key@, 0, e.len() as int);
            }
            let value = match found_at {
                Ok(i) => {
                    proof {
                        let b = p[m.id()];
                        assert(leaf_cell_ok(b, i as int));
                        assert(e[i as int] == (leaf_key(b, i as int), leaf_value(b, i as int)));
                    }
                    Some(slice_to_vec(page.get_leaf_value(i)))
                },
                Err(_) => None,
            };
            let ghost mid = *pool;
            pool.release(guard);
            proof {
                lemma_idle_read(pool, &mid, f);
            }
            return Ok(value);
        }
        assert(m is Node);
        let ghost keys = m->Node_1;
        let ghost ch = m.kids();
        let ghost bare = bare_row(ch);
        let (ci, child_id) = page.internal_route(key.as_bytes());
        let ghost c = ch[ci as int];
        proof {
            lemma_route_page(p[m.id()], keys, row_ids(ch), key@, ci as int, child_id, h, lo, hi, bare);
            assert(row_ids(ch)[ci as int] == c.id());
            assert(c.stored(p));
            assert(bare[ci as int] == c.bare());
            assert(Way::To(key@).takes(keys, ci as int));
            assert(neat_way(bare[ci as int], Way::To(key@)));
            lemma_stored_node(c, p);
            pool.lemma_vacant(child_id);
            if pool.whole() {
                pool.lemma_whole(child_id);
                if pool.reliable() && pool.frames() >= 2 {
                    pool.lemma_not_full();
                }
            }
            pool.lemma_frames();
            assert(c.owns(child_id));
            assert(!c.owns(m.id()));
            assert(c.distinct());
            assert(bare[ci as int] == c.bare());
            assert(sorted_tree(
                bare[ci as int],
                (h - 1) as nat,
                child_lo(keys, ci as int, lo),
                child_hi(keys, ci as int, hi),
            ));
        }
        let ghost mid = *pool;
        let lost = pool.is_vacant(child_id);
        let child_guard = match pool.read(child_id) {
            Ok(g) => g,
            Err(e) => {
                let ghost mid2 = *pool;
                pool.release(guard);
                proof {
                    pool.lemma_frames();
                    lemma_idle_read(pool, &mid2, f);
                }
                return Err(TreeError::Pool(e));
            },
        };
        let ghost f2 = child_guard.frame();
        proof {
            assert(mid.at(f) == Some(m.id()));
            assert(mid.pins()[f] == 1);
            assert(pool.at(f) == mid.at(f));
            if !lost {
                assert(!mid.stale(child_id));
                assert(f2 != f);
            }
            pool.lemma_frames();
        }
        let ghost mid2 = *pool;
        pool.release(guard);
        proof {
            assert(pool.at(f2) == mid2.at(f2));
            assert(only_read(pool, f2));
            assert forall|j: PageId| #[trigger] pool.stale(j) implies old(pool).stale(j) by {
                assert(mid2.stale(j));
            }
            if clear_below(m, Way::To(key@), old(pool)) {
                assert(clear(c, Way::To(key@), old(pool)));
                lemma_clear(c, Way::To(key@), pool, old(pool));
            }
        }
        if lost {
            return Self::search_astray(pool, child_guard, key);
        }
        Self::search_at(
            pool,
            child_guard,
            key,
            Ghost(c),
            Ghost((h - 1) as nat),
            Ghost(child_lo(keys, ci as int, lo)),
            Ghost(child_hi(keys, ci as int, hi)),
        )
    }

    /// Looks a key up from a page on that is held, whatever it holds, and goes where its pages lead;
    /// lets go of it. There is no way on from a page that holds no node.
    fn search_astray(
        pool: &mut BufferPoolManager<M>,
        start: ReadGuard,
        key: &Key,
    ) -> (r: Result<Option<Vec<u8>>, TreeError<M::Error>>)
        requires
            old(pool).wf(),
            only_read(old(pool), start.frame()),
        ensures
            left_off(final(pool), old(pool)),
            r matches Err(e) ==> e is Pool || e is Unreadable,
            ({
                let b = old(pool).bytes_at(start.frame());
                b[0] == 1 && leaf_ok(b) ==> {
                    &&& r is Ok
                    &&& opt_view(r->Ok_0) == match leaf_halved(b, key@, 0, count_of(b) as int) {
                        Ok(i) => Some(leaf_value(b, i)),
                        Err(_) => None,
                    }
                }
            }),
    {
        let mut guard = start;
        let mut steps: u64 = u64::MAX;
        let ghost first = start.frame();
        while steps > 0
            invariant
                pool.wf(),
                only_read(pool, guard.frame()),
                first == start.frame(),
                left_off_held(pool, old(pool)),
                steps == u64::MAX ==> *pool == *old(pool) && guard.frame() == first,
                steps < u64::MAX ==> !(old(pool).bytes_at(first)[0] == 1 && leaf_ok(
                    old(pool).bytes_at(first),
                )),
            decreases steps,
        {
            let ghost here = *pool;
            let ghost f = guard.frame();
            let page = SlottedPage(&pool.page(&guard).0);
            assert(page@ == pool.bytes_at(f));
            if page.is_leaf() {
                let found_at = if page.leaf_cells_ok() {
                    proof {
                        assert forall|i: int| 0 <= i < count_of(page@) implies #[trigger] leaf_key_ok(page@, i) by {
                            assert(leaf_cell_ok(page@, i));
                        }
                    }
                    match page.leaf_find(key.as_bytes()) {
                        Ok(i) => {
                            assert(leaf_cell_ok(page@, i as int));
                            Some(Some(slice_to_vec(page.get_leaf_value(i))))
                        },
                        Err(_) => Some(None),
                    }
                } else {
                    None
                };
                pool.release(guard);
                proof {
                    lemma_idle_read(pool, &here, f);
                }
                return match found_at {
                    Some(value) => Ok(value),
                    None => Err(TreeError::Unreadable),
                };
            }
            if !page.internal_cells_ok() {
                pool.release(guard);
                proof {
                    lemma_idle_read(pool, &here, f);
                }
                return Err(TreeError::Unreadable);
            }
            let (_, child_id) = page.internal_route(key.as_bytes());
            proof {
                pool.lemma_frames();
            }
            let child_guard = match pool.read(child_id) {
                Ok(g) => g,
                Err(e) => {
                    let ghost fail = *pool;
                    proof {
                        pool.lemma_frames();
                    }
                    pool.release(guard);
                    proof {
                        lemma_idle_read(pool, &fail, f);
                    }
                    return Err(TreeError::Pool(e));
                },
            };
            proof {
                pool.lemma_frames();
            }
            pool.release(guard);
            guard = child_guard;
            steps -= 1;
        }
        let ghost last = *pool;
        let ghost f = guard.frame();
        pool.release(guard);
        proof {
            lemma_idle_read(pool, &last, f);
        }
        Err(TreeError::Unreadable)
    }

    /// The value under `key`. Where a page on the way is lost, it is what is found from there on in
    /// what the pool holds for it.
    pub fn search(&mut self, key: &Key) -> (r: Result<Option<Vec<u8>>, TreeError<M::Error>>)
        requires
            old(self).laid_out(),
            neat(old(self).tree()) || neat_way(old(self).tree(), Way::To(key@)),
        ensures
            final(self).laid_out(),
            final(self).same_tree(old(self)),
            r is Ok && old(self).passable(Way::To(key@)) ==> looked_up(
                seek(old(self).tree(), old(self).height(), key@),
                key@,
                opt_view(r->Ok_0),
            ),
            r is Ok && old(self).unfailed() ==> final(self).unfailed(),
            old(self).unfailed() && old(self).serves(old(self).height() > 0) ==> r is Ok,
            r matches Err(e) ==> e is Pool || e is Unreadable,
            old(self).passable(Way::To(key@)) ==> !(r matches Err(e) && e is Unreadable),
    {
        let ghost pool0 = self.pool;
        let ghost m = self.shape@;
        proof {
            if neat(m.bare()) {
                lemma_neat_way(m.bare(), Way::To(key@));
            }
            lemma_bare(m);
            lemma_stored_node(m, self.pool.pages());
            self.pool.lemma_vacant(self.root);
            if self.pool.whole() {
                lemma_whole_clear(m, Way::To(key@), &self.pool);
                self.pool.lemma_whole(self.root);
                if self.frames() >= 1 {
                    self.pool.lemma_not_full();
                }
            }
        }
        let lost = self.pool.is_vacant(self.root);
        let guard = match self.pool.read(self.root) {
            Ok(g) => g,
            Err(e) => {
                proof {
                    self.pool.lemma_frames();
                }
                return Err(TreeError::Pool(e));
            },
        };
        proof {
            lemma_now_only_read(&self.pool, &pool0, guard.frame(), self.root);
            if clear(m, Way::To(key@), &pool0) {
                assert forall|j: PageId| #[trigger] self.pool.stale(j) implies pool0.stale(j) by {}
                lemma_clear(m, Way::To(key@), &self.pool, &pool0);
            }
        }
        if lost {
            return Self::search_astray(&mut self.pool, guard, key);
        }
        Self::search_at(
            &mut self.pool,
            guard,
            key,
            Ghost(self.shape@),
            Ghost(self.height@),
            Ghost(None),
            Ghost(None),
        )
    }

    /// The tree is as it was; only the pool may have moved pages.
    pub open spec fn same_tree(&self, o: &Self) -> bool {
        &&& self.tree() == o.tree()
        &&& self.height() == o.height()
        &&& self.degree() == o.degree()
        &&& self.reliable() == o.reliable()
        &&& self.frames() == o.frames()
        &&& self.room() == o.room()
    }

    /// The leftmost leaf below a node; also says whether a page on the way was lost.
    #[verifier::rlimit(50)]
    fn leftmost_leaf(
        pool: &mut BufferPoolManager<M>,
        id: PageId,
        Ghost(m): Ghost<PagedTree>,
        Ghost(h): Ghost<nat>,
        Ghost(lo): Ghost<Option<Seq<u8>>>,
        Ghost(hi): Ghost<Option<Seq<u8>>>,
    ) -> (r: Result<(PageId, bool), TreeError<M::Error>>)
        requires
            old(pool).wf(),
            old(pool).plain(),
            idle(old(pool)),
            id == m.id(),
            m.stored(old(pool).pages()),
            sorted_tree(m.bare(), h, lo, hi),
            neat_way(m.bare(), Way::First),
        ensures
            left_off(final(pool), old(pool)),
            r is Ok && old(pool).whole() ==> final(pool).whole(),
            r matches Ok(x) ==> !x.1 ==> x.0 == m.first(),
            clear(m, Way::First, old(pool)) ==> match r {
                Ok(x) => !x.1,
                Err(e) => e is Pool,
            },
            old(pool).whole() && calm(old(pool)) ==> r is Ok,
            r matches Err(e) ==> e is Pool || e is Unreadable,
        decreases h,
    {
        proof {
            lemma_stored_node(m, pool.pages());
            lemma_bare(m);
            pool.lemma_vacant(id);
            if pool.whole() {
                pool.lemma_whole(id);
            }
        }
        if pool.is_vacant(id) {
            return match Self::leftmost_astray(pool, id) {
                Ok(leaf) => Ok((leaf, true)),
                Err(e) => Err(e),
            };
        }
        let node = match Self::read_node(pool, id) {
            Ok(node) => node,
            Err(e) => {
                proof {
                    pool.lemma_frames();
                }
                return Err(e);
            },
        };
        match node {
            Node::Leaf(_) => Ok((id, false)),
            Node::Internal(internal) => {
                let ghost ch = m.kids();
                let ghost keys = m->Node_1;
                proof {
                    assert(m is Node);
                    assert(internal.children@ == row_ids(ch));
                    assert(row_ids(ch)[0] == ch[0].id());
                    assert(ch[0].stored(pool.pages()));
                    assert(bare_row(ch)[0] == ch[0].bare());
                    assert(Way::First.takes(keys, 0));
                    assert(neat_way(bare_row(ch)[0], Way::First));
                    assert(sorted_tree(
                        bare_row(ch)[0],
                        (h - 1) as nat,
                        child_lo(keys, 0, lo),
                        child_hi(keys, 0, hi),
                    ));
                    if clear(m, Way::First, old(pool)) {
                        assert(clear(ch[0], Way::First, old(pool)));
                        lemma_clear(ch[0], Way::First, pool, old(pool));
                    }
                }
                Self::leftmost_leaf(
                    pool,
                    internal.children[0],
                    Ghost(ch[0]),
                    Ghost((h - 1) as nat),
                    Ghost(child_lo(keys, 0, lo)),
                    Ghost(child_hi(keys, 0, hi)),
                )
            },
        }
    }

    /// The leftmost leaf from a page on, wherever the pages lead.
    fn leftmost_astray(
        pool: &mut BufferPoolManager<M>,
        start: PageId,
    ) -> (r: Result<PageId, TreeError<M::Error>>)
        requires
            old(pool).wf(),
            idle(old(pool)),
        ensures
            left_off(final(pool), old(pool)),
            r matches Err(e) ==> e is Pool || e is Unreadable,
            old(pool).stale(start) ==> match held_for(old(pool), start) {
                Some(NodeView::Leaf(_, _)) => r matches Ok(id) && id == start,
                Some(NodeView::Internal(_, _)) => true,
                None => r is Err,
            },
    {
        let mut id = start;
        let mut steps: u64 = u64::MAX;
        while steps > 0
            invariant
                left_off(pool, old(pool)),
                steps == u64::MAX ==> id == start && *pool == *old(pool),
                steps < u64::MAX && old(pool).stale(start) ==> held_for(old(pool), start) matches Some(
                    NodeView::Internal(_, _),
                ),
            decreases steps,
        {
            let r = Self::read_any(pool, id);
            proof {
                pool.lemma_frames();
            }
            match r {
                Ok(Node::Leaf(_)) => {
                    return Ok(id);
                },
                Ok(Node::Internal(internal)) => {
                    if internal.children.len() == 0 {
                        return Err(TreeError::Unreadable);
                    }
                    id = internal.children[0];
                },
                Err(e) => {
                    return Err(e);
                },
            }
            steps -= 1;
        }
        Err(TreeError::Unreadable)
    }

    /// The leaf below a node that a walk from `key` on begins in; also says whether a page on the way
    /// was lost.
    #[verifier::rlimit(50)]
    fn find_leaf(
        pool: &mut BufferPoolManager<M>,
        id: PageId,
        key: &Key,
        Ghost(m): Ghost<PagedTree>,
        Ghost(h): Ghost<nat>,
        Ghost(lo): Ghost<Option<Seq<u8>>>,
        Ghost(hi): Ghost<Option<Seq<u8>>>,
        Ghost(next): Ghost<Option<PageId>>,
    ) -> (r: Result<(PageId, bool, Ghost<int>), TreeError<M::Error>>)
        requires
            old(pool).wf(),
            old(pool).plain(),
            idle(old(pool)),
            id == m.id(),
            m.stored(old(pool).pages()),
            m.linked(next),
            sorted_tree(m.bare(), h, lo, hi),
            neat_way(m.bare(), Way::From(key@)),
        ensures
            left_off(final(pool), old(pool)),
            r is Ok && old(pool).whole() ==> final(pool).whole(),
            forall|j: PageId| r is Ok && clear(m, Way::From(key@), old(pool)) && #[trigger] final(pool).stale(j) ==> old(pool).stale(j),
            r matches Ok(x) ==> !x.1 ==> {
                let ls = leaves(m);
                &&& 0 <= x.2@ < ls.len()
                &&& ls[x.2@].id() == x.0
                &&& !final(pool).stale(x.0)
                &&& roomy(ls[x.2@].bare())
                &&& rising(leaf_entries(ls[x.2@]))
                &&& place(leaf_entries(ls[x.2@]), key@) <= leaf_entries(ls[x.2@]).len()
                &&& rest_at(ls, x.2@, place(leaf_entries(ls[x.2@]), key@) as int) == tail_from(
                    m.bare(),
                    h,
                    key@,
                )
            },
            clear(m, Way::From(key@), old(pool)) ==> match r {
                Ok(x) => !x.1,
                Err(e) => e is Pool,
            },
            old(pool).whole() && calm(old(pool)) ==> r is Ok,
            r matches Err(e) ==> e is Pool || e is Unreadable,
        decreases h,
    {
        let ghost p = pool.pages();
        proof {
            lemma_stored_node(m, p);
            lemma_bare(m);
            pool.lemma_vacant(id);
            if pool.whole() {
                pool.lemma_whole(id);
            }
        }
        if pool.is_vacant(id) {
            return match Self::find_astray(pool, id, key) {
                Ok(leaf) => Ok((leaf, true, Ghost(0))),
                Err(e) => Err(e),
            };
        }
        let node = match Self::read_node(pool, id) {
            Ok(node) => node,
            Err(e) => {
                proof {
                    pool.lemma_frames();
                }
                return Err(e);
            },
        };
        match node {
            Node::Leaf(leaf) => {
                proof {
                    let e = entry_views(leaf.entries@);
                    lemma_place(e, key@);
                    let pos = place(e, key@) as int;
                    let ls = leaves(m);
                    assert(ls.skip(1) =~= Seq::empty());
                    assert(bare_row(ls.skip(1)) =~= Seq::empty());
                    assert(flat(bare_row(ls.skip(1))) =~= Seq::empty());
                    assert(rest_at(ls, 0, pos) =~= e.skip(pos));
                }
                Ok((id, false, Ghost(0)))
            },
            Node::Internal(internal) => {
                let ghost ch = m.kids();
                let ghost keys = m->Node_1;
                proof {
                    assert(m is Node);
                    assert(internal@ == m.shape());
                    lemma_fences(keys, lo, hi);
                }
                let ci = internal.child_index(key);
                let ghost c = ch[ci as int];
                let ghost z = after(ch, ci as int, next);
                let ghost mid = *pool;
                proof {
                    assert(row_ids(ch)[ci as int] == c.id());
                    assert(c.stored(p));
                    assert(c.linked(z));
                    assert(bare_row(ch)[ci as int] == c.bare());
                    assert(Way::From(key@).takes(keys, ci as int));
                    assert(neat_way(bare_row(ch)[ci as int], Way::From(key@)));
                    assert(sorted_tree(
                        bare_row(ch)[ci as int],
                        (h - 1) as nat,
                        child_lo(keys, ci as int, lo),
                        child_hi(keys, ci as int, hi),
                    ));
                    if clear(m, Way::From(key@), old(pool)) {
                        assert(clear(c, Way::From(key@), old(pool)));
                        lemma_clear(c, Way::From(key@), pool, old(pool));
                    }
                }
                let (leaf_id, strays, Ghost(j)) = Self::find_leaf(
                    pool,
                    internal.children[ci],
                    key,
                    Ghost(c),
                    Ghost((h - 1) as nat),
                    Ghost(child_lo(keys, ci as int, lo)),
                    Ghost(child_hi(keys, ci as int, hi)),
                    Ghost(z),
                )?;
                let ghost k = row_leaves(ch.take(ci as int)).len() + j;
                proof {
                    if !strays {
                        let pos = place(leaf_entries(leaves(c)[j]), key@) as int;
                        lemma_rest_at(ch, ci as int, j, pos, p, next);
                        assert(bare_row(ch).skip(ci + 1) =~= bare_row(ch.skip(ci + 1)));
                    }
                    assert forall|x: PageId| clear(m, Way::From(key@), old(pool)) && #[trigger] pool.stale(
                        x,
                    ) implies old(pool).stale(x) by {
                        assert(mid.stale(x));
                    }
                }
                Ok((leaf_id, strays, Ghost(k)))
            },
        }
    }

    /// The leaf that a walk from `key` on begins in, from a page on, wherever the pages lead.
    fn find_astray(
        pool: &mut BufferPoolManager<M>,
        start: PageId,
        key: &Key,
    ) -> (r: Result<PageId, TreeError<M::Error>>)
        requires
            old(pool).wf(),
            idle(old(pool)),
        ensures
            left_off(final(pool), old(pool)),
            r matches Err(e) ==> e is Pool || e is Unreadable,
            old(pool).stale(start) ==> match held_for(old(pool), start) {
                Some(NodeView::Leaf(_, _)) => r matches Ok(id) && id == start,
                Some(NodeView::Internal(_, _)) => true,
                None => r is Err,
            },
    {
        let mut id = start;
        let mut steps: u64 = u64::MAX;
        while steps > 0
            invariant
                left_off(pool, old(pool)),
                steps == u64::MAX ==> id == start && *pool == *old(pool),
                steps < u64::MAX && old(pool).stale(start) ==> held_for(old(pool), start) matches Some(
                    NodeView::Internal(_, _),
                ),
            decreases steps,
        {
            let r = Self::read_any(pool, id);
            proof {
                pool.lemma_frames();
            }
            match r {
                Ok(Node::Leaf(_)) => {
                    return Ok(id);
                },
                Ok(Node::Internal(internal)) => {
                    let ci = internal.child_index(key);
                    if ci >= internal.children.len() {
                        return Err(TreeError::Unreadable);
                    }
                    id = internal.children[ci];
                },
                Err(e) => {
                    return Err(e);
                },
            }
            steps -= 1;
        }
        Err(TreeError::Unreadable)
    }

    /// A walk over all entries. Where a page on the way is lost, it begins where what the pool holds
    /// for it leads.
    pub fn iter(&mut self) -> (r: Result<LeafIter, TreeError<M::Error>>)
        requires
            old(self).laid_out(),
            neat(old(self).tree()) || neat_way(old(self).tree(), Way::First),
        ensures
            final(self).laid_out(),
            final(self).same_tree(old(self)),
            r matches Ok(it) ==> {
                &&& it.wf(final(self))
                &&& !it.strays() ==> it.remaining(final(self)) == old(self)@
            },
            r is Ok && old(self).unfailed() ==> final(self).unfailed(),
            old(self).passable(Way::First) ==> match r {
                Ok(it) => !it.strays(),
                Err(e) => e is Pool,
            },
            old(self).unfailed() && old(self).serves(false) ==> r is Ok,
            r matches Err(e) ==> e is Pool || e is Unreadable,
    {
        let ghost m = self.shape@;
        proof {
            if self.pool.whole() {
                lemma_whole_clear(m, Way::First, &self.pool);
            }
            if neat(m.bare()) {
                lemma_neat_way(m.bare(), Way::First);
            }
        }
        let (leaf_id, strays) = Self::leftmost_leaf(
            &mut self.pool,
            self.root,
            Ghost(m),
            Ghost(self.height@),
            Ghost(None),
            Ghost(None),
        )?;
        proof {
            let ls = leaves(m);
            lemma_leaves(m, self.pool.pages(), None);
            lemma_first_rest(ls);
            lemma_reach_all(self@);
            assert(self@.take(self@.len() as int) =~= self@);
        }
        Ok(LeafIter::new(leaf_id, 0, Bound::Unbounded, strays, Ghost(0)))
    }

    /// A walk over the entries from `start` to `end`. Where a page on the way is lost, it begins
    /// where what the pool holds for it leads.
    pub fn range_from(
        &mut self,
        start: &Key,
        end: Bound<Key>,
    ) -> (r: Result<LeafIter, TreeError<M::Error>>)
        requires
            old(self).laid_out(),
            neat(old(self).tree()) || neat_way(old(self).tree(), Way::From(start@)),
        ensures
            final(self).laid_out(),
            final(self).same_tree(old(self)),
            r matches Ok(it) ==> {
                let tail = tail_from(old(self).tree(), old(self).height(), start@);
                &&& it.wf(final(self))
                &&& !it.strays() ==> it.remaining(final(self)) == tail.take(reach(tail, end) as int)
            },
            r is Ok && old(self).unfailed() ==> final(self).unfailed(),
            old(self).passable(Way::From(start@)) ==> match r {
                Ok(it) => !it.strays(),
                Err(e) => e is Pool,
            },
            old(self).unfailed() && old(self).serves(false) ==> r is Ok,
            r matches Err(e) ==> e is Pool || e is Unreadable,
    {
        let ghost m = self.shape@;
        let ghost p = self.pool.pages();
        proof {
            if neat(m.bare()) {
                lemma_neat_way(m.bare(), Way::From(start@));
            }
            if self.pool.whole() {
                lemma_whole_clear(m, Way::From(start@), &self.pool);
            }
        }
        let (leaf_id, strays, Ghost(j)) = Self::find_leaf(
            &mut self.pool,
            self.root,
            start,
            Ghost(m),
            Ghost(self.height@),
            Ghost(None),
            Ghost(None),
            Ghost(None),
        )?;
        proof {
            lemma_leaves(m, p, None);
            if !strays {
                let leaf = leaves(m)[j];
                assert(leaf is Leaf);
                lemma_stored_node(leaf, p);
            }
        }
        let node = match Self::read_any(&mut self.pool, leaf_id) {
            Ok(node) => node,
            Err(e) => {
                proof {
                    self.pool.lemma_frames();
                }
                return Err(e);
            },
        };
        let pos = match node {
            Node::Leaf(leaf) => match leaf.find_pos(start) {
                Ok(i) => i,
                Err(i) => i,
            },
            Node::Internal(_) => 0,
        };
        proof {
            self.pool.lemma_frames();
        }
        Ok(LeafIter::new(leaf_id, pos, end, strays, Ghost(j)))
    }

    /// What the pool holds for a page that is lost.
    pub closed spec fn instead(&self, id: PageId) -> Option<NodeView> {
        held_for(&self.pool, id)
    }

    /// Page `id` is on the medium.
    closed spec fn has_page(&self, id: PageId) -> bool {
        self.pool.pages().contains_key(id)
    }

    /// Page `id` is on the medium and holds the leaf `v`.
    closed spec fn has_leaf(&self, id: PageId, v: NodeView) -> bool {
        &&& self.pool.pages().contains_key(id)
        &&& legible(self.pool.pages()[id])
        &&& node_of(self.pool.pages()[id]) == v
        &&& v is Leaf
    }

    /// Reads a leaf; there is none if its page cannot be had, or holds none. For a page that is lost,
    /// it is the one that the pool holds for it.
    fn fetch_leaf(&mut self, id: PageId, Ghost(v): Ghost<NodeView>) -> (r: Option<Leaf>)
        requires
            old(self).readable(),
        ensures
            final(self).readable(),
            final(self).unmoved(old(self)),
            final(self).asked_once(old(self), id),
            old(self).lost(id) ==> match old(self).instead(id) {
                Some(w) => if w is Leaf {
                    r matches Some(leaf) && leaf@ == w
                } else {
                    r is None
                },
                None => r is None,
            },
            old(self).has_leaf(id, v) && !old(self).lost(id) ==> match r {
                Some(leaf) => leaf@ == v && (old(self).wf() ==> final(self).wf()),
                None => final(self).asked_in_vain(old(self), id),
            },
            old(self).has_leaf(id, v) && old(self).wf() && old(self).serves(false) ==> r is Some,
            old(self).has_leaf(id, v) && old(self).wf() && old(self).reliable() ==> final(self).wf(),
    {
        let ghost pool0 = self.pool;
        proof {
            if pool0.whole() {
                pool0.lemma_whole(id);
            }
        }
        let r = Self::read_any(&mut self.pool, id);
        proof {
            self.pool.lemma_frames();
        }
        match r {
            Ok(Node::Leaf(leaf)) => Some(leaf),
            Ok(Node::Internal(_)) => None,
            Err(e) => {
                proof {
                    if let TreeError::Pool(x) = e {
                        assert(denied(&self.pool, &pool0, id, x));
                    }
                }
                None
            },
        }
    }

    /// The pool was asked for page `id` once since `o`, and for nothing else.
    pub closed spec fn asked_once(&self, o: &Self, id: PageId) -> bool {
        self.unmoved(o) && self.pool.visited(&o.pool, id)
    }

    /// The pool was asked for page `id` once since `o`, and did not bring it in.
    pub closed spec fn asked_in_vain(&self, o: &Self, id: PageId) -> bool {
        &&& self.unmoved(o)
        &&& exists|e: BpmError<M::Error>| #[trigger] denied(&self.pool, &o.pool, id, e)
    }

    /// The pool was asked once for the page that `next` names, if it names one.
    pub open spec fn looked_ahead(&self, o: &Self, next: Option<PageId>) -> bool {
        match next {
            Some(id) => self.asked_once(o, id),
            None => *self == *o,
        }
    }

    /// Page `id` was asked for: it is at hand, or there is a reason why it is not.
    pub open spec fn sought(&self, id: PageId) -> bool {
        self.at_hand(id) || self.lost(id) || self.crowded() || !self.well_served()
    }

    /// Brings a leaf into the pool, to have it at hand. What comes of it does not matter here: the
    /// leaf is asked for again when it is needed.
    fn prefetch_leaf(&mut self, id: PageId)
        requires
            old(self).readable(),
        ensures
            final(self).readable(),
            final(self).unmoved(old(self)),
            final(self).asked_once(old(self), id),
            final(self).sought(id),
            old(self).has_page(id) && old(self).wf() && old(self).reliable() ==> {
                &&& final(self).wf()
                &&& final(self).at_hand(id) <==> old(self).frames() > 0
            },
            old(self).at_hand(id) ==> final(self).at_hand(id) && (old(self).wf() ==> final(self).wf()),
    {
        let ghost pool0 = self.pool;
        proof {
            if self.pool.at_hand(id) {
                let f = choose|f: int| 0 <= f < pool0.frames() && #[trigger] pool0.at(f) == Some(id);
                self.pool.lemma_at(f, id);
            }
            if self.pool.whole() {
                self.pool.lemma_whole(id);
                if self.pool.frames() > 0 {
                    self.pool.lemma_not_full();
                }
            }
            self.pool.lemma_frames();
        }
        match self.pool.read(id) {
            Ok(guard) => {
                proof {
                    lemma_now_only_read(&self.pool, &pool0, guard.frame(), id);
                }
                let ghost mid = self.pool;
                self.pool.release(guard);
                proof {
                    assert(mid.fetched(&pool0, id, Ok(guard.frame())));
                    lemma_idle_read(&self.pool, &mid, guard.frame());
                    assert(self.pool.at(guard.frame()) == mid.at(guard.frame()));
                    if pool0.tabled(id) && !pool0.stale(id) {
                        pool0.lemma_cached(id);
                        assert(mid.at(guard.frame()) == Some(id));
                    }
                    if pool0.stale(id) {
                        pool0.lemma_vacant(id);
                        assert(mid.stale(id));
                    }
                    if !pool0.tabled(id) && !pool0.pages().contains_key(id) {
                        assert(mid.at(guard.frame()) is None);
                        assert(self.pool.place(id) == mid.place(id));
                        self.pool.lemma_stale(id, guard.frame());
                    }
                }
            },
            Err(e) => {
                proof {
                    self.pool.lemma_frames();
                    if let BpmError::Medium(x) = e {
                        if pool0.records() {
                            assert(self.pool.blames(x));
                        }
                    }
                }
            },
        }
    }

    /// Nothing has changed but where pages are kept.
    closed spec fn unmoved(&self, o: &Self) -> bool {
        &&& self.t == o.t
        &&& self.root == o.root
        &&& self.len == o.len
        &&& self.shape@ == o.shape@
        &&& self.height@ == o.height@
        &&& self.pool.pages() == o.pool.pages()
        &&& self.pool.room() == o.pool.room()
        &&& self.pool.reliable() == o.pool.reliable()
        &&& self.pool.frames() == o.pool.frames()
    }
}

/// A walk that ends at `b` reaches the key `k`.
pub open spec fn reaches(b: Bound<Key>, k: Seq<u8>) -> bool {
    match b {
        Bound::Included(e) => bytes_le(k, e@),
        Bound::Excluded(e) => bytes_lt(k, e@),
        Bound::Unbounded => true,
    }
}

/// How many of the leading entries a walk that ends at `b` reaches.
pub open spec fn reach(e: Seq<Entry>, b: Bound<Key>) -> nat
    decreases e.len(),
{
    if e.len() == 0 || !reaches(b, e[0].0) {
        0
    } else {
        1 + reach(e.drop_first(), b)
    }
}

proof fn lemma_reach_all(e: Seq<Entry>)
    ensures
        reach(e, Bound::Unbounded) == e.len(),
    decreases e.len(),
{
    if e.len() > 0 {
        lemma_reach_all(e.drop_first());
    }
}

/// What a walk reaches in the leading entries it reaches in all.
proof fn lemma_reach_concat(a: Seq<Entry>, c: Seq<Entry>, b: Bound<Key>)
    ensures
        reach(a, b) <= reach(a + c, b),
        reach(a, b) < a.len() ==> reach(a, b) == reach(a + c, b),
    decreases a.len(),
{
    if a.len() > 0 && reaches(b, a[0].0) {
        lemma_reach_concat(a.drop_first(), c, b);
        assert((a + c).drop_first() =~= a.drop_first() + c);
    }
}

proof fn lemma_reach_len(e: Seq<Entry>, b: Bound<Key>)
    ensures
        reach(e, b) <= e.len(),
    decreases e.len(),
{
    if e.len() > 0 {
        lemma_reach_len(e.drop_first(), b);
    }
}

/// From the first entry of the first leaf on everything is met.
proof fn lemma_first_rest(ls: Seq<PagedTree>)
    requires
        ls.len() > 0,
        alike(ls, true),
    ensures
        rest_at(ls, 0, 0) == flat(bare_row(ls)),
{
    assert(ls[0] is Leaf);
    lemma_flat_at(bare_row(ls), 0);
    assert(bare_row(ls).take(0) =~= Seq::empty());
    assert(bare_row(ls).skip(1) =~= bare_row(ls.skip(1)));
    assert(rest_at(ls, 0, 0) =~= flat(bare_row(ls)));
}

/// What a walk that begins below child `ci` meets.
#[verifier::rlimit(50)]
proof fn lemma_rest_at(
    ch: Seq<PagedTree>,
    ci: int,
    j: int,
    pos: int,
    p: Map<PageId, Seq<u8>>,
    next: Option<PageId>,
)
    requires
        0 <= ci < ch.len(),
        row_stored(ch, p),
        row_linked(ch, next),
        0 <= j < leaves(ch[ci]).len(),
        0 <= pos <= leaf_entries(leaves(ch[ci])[j]).len(),
    ensures
        ({
            let k = row_leaves(ch.take(ci)).len() + j;
            &&& 0 <= k < row_leaves(ch).len()
            &&& row_leaves(ch)[k] == leaves(ch[ci])[j]
            &&& rest_at(row_leaves(ch), k, pos) == rest_at(leaves(ch[ci]), j, pos) + flat(
                bare_row(ch.skip(ci + 1)),
            )
        }),
{
    let a = row_leaves(ch.take(ci));
    let b = leaves(ch[ci]);
    let c = row_leaves(ch.skip(ci + 1));
    let ls = row_leaves(ch);
    let k = a.len() + j;
    lemma_leaves_at(ch, ci);
    assert(ls == a + b + c);
    assert(ls[k] == b[j]);
    assert(ls.skip(k + 1) =~= b.skip(j + 1) + c);
    assert(bare_row(b.skip(j + 1) + c) =~= bare_row(b.skip(j + 1)) + bare_row(c));
    lemma_flat_concat(bare_row(b.skip(j + 1)), bare_row(c));
    let d = ch.skip(ci + 1);
    assert(row_stored(d, p)) by {
        assert forall|i: int| 0 <= i < d.len() implies (#[trigger] d[i]).stored(p) by {
            assert(d[i] == ch[ci + 1 + i]);
        }
    }
    assert(row_linked(d, next)) by {
        assert forall|i: int| 0 <= i < d.len() implies d[i].linked(#[trigger] after(d, i, next)) by {
            assert(ch[ci + 1 + i].linked(after(ch, ci + 1 + i, next)));
            if i + 1 < d.len() {
                assert(d[i + 1] == ch[ci + 1 + i + 1]);
            }
        }
    }
    lemma_row_leaves(d, p, next);
    assert(rest_at(ls, k, pos) =~= rest_at(b, j, pos) + flat(bare_row(d)));
}

/// A walk over the leaves of a tree. It is made for the tree as it stands. It stops where a leaf
/// is needed whose page cannot be had, and can be taken up again there. Where the page is lost, it
/// strays: it goes on with what the pool holds for it, and wherever that leads.
pub struct LeafIter {
    current_id: Option<PageId>,
    current_leaf: Option<Leaf>,
    pos: usize,
    end: Bound<Key>,
    astray: bool,
    rank: Ghost<int>,
}

impl LeafIter {
    fn new(
        start_id: PageId,
        pos: usize,
        end: Bound<Key>,
        astray: bool,
        Ghost(rank): Ghost<int>,
    ) -> (r: Self)
        ensures
            r.current_id == Some(start_id),
            r.current_leaf is None,
            r.pos == pos,
            r.end == end,
            r.astray == astray,
            r.rank@ == rank,
    {
        LeafIter { current_id: Some(start_id), current_leaf: None, pos, end, astray, rank: Ghost(rank) }
    }

    /// The walk has come by a page that was lost.
    pub closed spec fn strays(&self) -> bool {
        self.astray
    }

    /// The walk is one over the leaves of the tree, or has strayed from them.
    pub closed spec fn wf<M: Medium>(&self, tree: &BPlusTree<M>) -> bool {
        self.astray || self.on_track(tree)
    }

    closed spec fn on_track<M: Medium>(&self, tree: &BPlusTree<M>) -> bool {
        let ls = leaves(tree.shape@);
        &&& self.current_id matches Some(id) ==> {
            &&& 0 <= self.rank@ < ls.len()
            &&& ls[self.rank@].id() == id
            &&& self.pos <= leaf_entries(ls[self.rank@]).len()
        }
        &&& self.current_leaf matches Some(leaf) ==> {
            &&& self.current_id is Some
            &&& leaf@ == ls[self.rank@].shape()
        }
    }

    closed spec fn rest<M: Medium>(&self, tree: &BPlusTree<M>) -> Seq<Entry> {
        if self.current_id is None {
            Seq::empty()
        } else {
            rest_at(leaves(tree.shape@), self.rank@, self.pos as int)
        }
    }

    /// The entries that the walk has yet to give.
    pub closed spec fn remaining<M: Medium>(&self, tree: &BPlusTree<M>) -> Seq<Entry> {
        self.rest(tree).take(reach(self.rest(tree), self.end) as int)
    }

    /// The entries of the leaf at hand that the walk has yet to give.
    pub closed spec fn in_leaf(&self) -> Seq<Entry> {
        match self.current_leaf {
            Some(leaf) => self.given(entry_views(leaf.entries@)),
            None => Seq::empty(),
        }
    }

    /// What the walk would give of a leaf with the entries `e`.
    pub closed spec fn given(&self, e: Seq<Entry>) -> Seq<Entry> {
        if self.pos < e.len() {
            let left = e.skip(self.pos as int);
            left.take(reach(left, self.end) as int)
        } else {
            Seq::empty()
        }
    }

    /// Where the leaf behind the one at hand is.
    pub closed spec fn ahead(&self) -> Option<PageId> {
        match self.current_leaf {
            Some(leaf) => leaf.next,
            None => None,
        }
    }

    /// The page of the leaf that the walk has to read before it goes on.
    pub closed spec fn to_read(&self) -> Option<PageId> {
        match self.current_leaf {
            Some(_) => None,
            None => self.current_id,
        }
    }

    /// The entries that the walk has yet to give of the leaf that it has come to.
    pub closed spec fn here<M: Medium>(&self, tree: &BPlusTree<M>) -> Seq<Entry> {
        if self.current_id is None {
            Seq::empty()
        } else {
            let e = leaf_entries(leaves(tree.shape@)[self.rank@]).skip(self.pos as int);
            e.take(reach(e, self.end) as int)
        }
    }

    /// What is left of the leaf at hand comes first.
    pub proof fn lemma_in_leaf<M: Medium>(&self, tree: &BPlusTree<M>)
        requires
            tree.readable(),
            self.wf(tree),
            !self.strays(),
        ensures
            self.in_leaf().is_prefix_of(self.remaining(tree)),
    {
        if let Some(leaf) = self.current_leaf {
            let ls = leaves(tree.shape@);
            lemma_leaves(tree.shape@, tree.pool.pages(), None);
            assert(ls[self.rank@] is Leaf);
            let e = entry_views(leaf.entries@).skip(self.pos as int);
            lemma_reach_concat(e, flat(bare_row(ls.skip(self.rank@ + 1))), self.end);
            lemma_reach_len(self.rest(tree), self.end);
            lemma_reach_len(e, self.end);
        }
    }

    /// Reads the leaf that the walk has come to, and asks for the one behind it.
    #[verifier::rlimit(50)]
    fn fetch<M: Medium>(&mut self, tree: &mut BPlusTree<M>, id: PageId) -> (r: bool)
        requires
            old(tree).readable(),
            old(self).wf(old(tree)),
            old(self).current_leaf is None,
            old(self).current_id == Some(id),
        ensures
            final(tree).readable(),
            final(tree).unmoved(old(tree)),
            final(self).wf(final(tree)),
            final(self).current_id == old(self).current_id,
            final(self).pos == old(self).pos,
            final(self).end == old(self).end,
            final(self).rank == old(self).rank,
            old(self).astray ==> final(self).astray,
            old(tree).wf() && old(tree).reliable() && !old(self).astray ==> final(tree).wf()
                && !final(self).astray,
            old(tree).wf() && old(tree).serves(false) && !old(self).astray ==> r,
            !old(self).astray && !old(tree).lost(id) ==> !final(self).astray,
            r ==> {
                &&& final(self).current_leaf is Some
                &&& old(tree).lost(id) ==> {
                    &&& final(self).astray
                    &&& old(tree).instead(id) == Some(final(self).current_leaf->0@)
                }
                &&& exists|mid: BPlusTree<M>| #[trigger] mid.asked_once(old(tree), id)
                    && final(tree).looked_ahead(&mid, final(self).ahead())
                &&& final(self).ahead() matches Some(n) ==> {
                    &&& final(tree).sought(n)
                    &&& old(tree).wf() && old(tree).reliable() && !old(self).astray ==> (final(tree).at_hand(n) <==> old(tree).frames() > 0)
                }
            },
            !r ==> {
                &&& *final(self) == *old(self)
                &&& old(tree).lost(id) ==> {
                    &&& final(tree).asked_once(old(tree), id)
                    &&& !(old(tree).instead(id) matches Some(NodeView::Leaf(_, _)))
                    &&& final(tree).lost(id)
                }
                &&& !old(tree).lost(id) && !old(self).astray ==> final(tree).asked_in_vain(old(tree), id)
            },
    {
        let ghost ls = leaves(tree.shape@);
        let ghost v = if self.astray {
            arbitrary()
        } else {
            ls[self.rank@].shape()
        };
        proof {
            lemma_leaves(tree.shape@, tree.pool.pages(), None);
            lemma_leaves_neat(tree.shape@);
            if !self.astray {
                lemma_stored_node(ls[self.rank@], tree.pool.pages());
                assert(ls[self.rank@] is Leaf);
                assert(tree.has_leaf(id, v));
            }
            tree.pool.lemma_vacant(id);
            if tree.pool.whole() {
                tree.pool.lemma_whole(id);
            }
        }
        let lost = tree.pool.is_vacant(id);
        let leaf = match tree.fetch_leaf(id, Ghost(v)) {
            Some(leaf) => leaf,
            None => {
                return false;
            },
        };
        let ghost mid = *tree;
        if lost {
            self.astray = true;
        }
        if let Some(next_id) = leaf.next {
            proof {
                if !self.astray {
                    lemma_next_leaf(ls, self.rank@, None);
                    lemma_stored_node(ls[self.rank@ + 1], tree.pool.pages());
                    assert(tree.has_page(next_id));
                }
            }
            tree.prefetch_leaf(next_id);
        }
        self.current_leaf = Some(leaf);
        proof {
            assert(mid.asked_once(old(tree), id) && tree.looked_ahead(&mid, self.ahead()));
        }
        true
    }

    /// The next entry of the leaf at hand: there may be none left in it, or it may lie behind the
    /// end of the walk.
    fn take_entry(&mut self) -> (r: Option<Option<(Key, Vec<u8>)>>)
        requires
            old(self).current_leaf is Some,
        ensures
            ({
                let e = entry_views(old(self).current_leaf->0.entries@);
                match r {
                    Some(Some((k, v))) => {
                        &&& old(self).pos < e.len()
                        &&& e[old(self).pos as int] == (k@, v@)
                        &&& reaches(old(self).end, k@)
                        &&& old(self).in_leaf().len() > 0
                        &&& old(self).in_leaf()[0] == (k@, v@)
                        &&& final(self).in_leaf() == old(self).in_leaf().skip(1)
                        &&& final(self).pos == old(self).pos + 1
                    },
                    Some(None) => {
                        &&& old(self).pos < e.len()
                        &&& !reaches(old(self).end, e[old(self).pos as int].0)
                        &&& old(self).in_leaf().len() == 0
                        &&& final(self).pos == old(self).pos
                    },
                    None => {
                        &&& old(self).pos >= e.len()
                        &&& old(self).in_leaf().len() == 0
                        &&& final(self).pos == old(self).pos
                    },
                }
            }),
            final(self).current_leaf == old(self).current_leaf,
            final(self).current_id == old(self).current_id,
            final(self).end == old(self).end,
            final(self).astray == old(self).astray,
            final(self).rank == old(self).rank,
    {
        let leaf = self.current_leaf.as_ref().unwrap();
        let ghost e = entry_views(leaf.entries@);
        let ghost left = e.skip(self.pos as int);
        if self.pos >= leaf.entries.len() {
            return None;
        }
        let entry = &leaf.entries[self.pos];
        proof {
            assert(entry@ == e[self.pos as int]);
            assert(left[0] == e[self.pos as int]);
            lemma_reach_len(left, self.end);
        }
        let within_end = match &self.end {
            Bound::Included(key) => match compare(entry.key.as_bytes(), key.as_bytes()) {
                Rank::Above => false,
                _ => true,
            },
            Bound::Excluded(key) => match compare(entry.key.as_bytes(), key.as_bytes()) {
                Rank::Below => true,
                _ => false,
            },
            Bound::Unbounded => true,
        };
        proof {
            lemma_bytes_order();
            assert(within_end == reaches(self.end, left[0].0));
        }
        if !within_end {
            return Some(None);
        }
        let out = (entry.key.clone(), slice_to_vec(entry.value.as_slice()));
        self.pos = self.pos + 1;
        proof {
            assert(e.skip(self.pos as int) =~= left.drop_first());
            lemma_reach_len(left.drop_first(), self.end);
            assert(self.in_leaf() =~= left.take(reach(left, self.end) as int).skip(1));
        }
        Some(Some(out))
    }

    /// The next entry of the walk over `tree`.
    #[verifier::rlimit(50)]
    pub fn next<M: Medium>(&mut self, tree: &mut BPlusTree<M>) -> (r: Option<(Key, Vec<u8>)>)
        requires
            old(tree).readable(),
            old(self).wf(old(tree)),
        ensures
            final(tree).readable(),
            final(tree).same_tree(old(tree)),
            final(self).wf(final(tree)),
            old(self).strays() ==> final(self).strays(),
            old(tree).wf() && old(tree).reliable() && !old(self).strays() ==> final(tree).wf()
                && !final(self).strays(),
            r is Some && !final(self).strays() ==> {
                &&& old(self).remaining(old(tree)).len() > 0
                &&& old(self).remaining(old(tree))[0] == (r->Some_0.0@, r->Some_0.1@)
                &&& final(self).remaining(final(tree)) == old(self).remaining(old(tree)).skip(1)
            },
            r is None && !final(self).strays() ==> final(self).remaining(final(tree)) == old(self).remaining(old(tree)),
            old(tree).wf() && old(tree).serves(false) && !old(self).strays() && r is None ==> old(self).remaining(old(tree)).len() == 0,
            old(self).in_leaf().len() > 0 ==> {
                &&& r matches Some((k, v)) && old(self).in_leaf()[0] == (k@, v@)
                &&& *final(tree) == *old(tree)
                &&& final(self).in_leaf() == old(self).in_leaf().skip(1)
                &&& final(self).ahead() == old(self).ahead()
                &&& final(self).strays() == old(self).strays()
            },
            old(self).to_read() matches Some(id) ==> !old(self).strays() && !old(tree).lost(id) && old(self).here(old(tree)).len() > 0 ==> match r {
                Some(_) => !final(self).strays() && exists|mid: BPlusTree<M>| #[trigger]
                    mid.asked_once(old(tree), id) && final(tree).looked_ahead(
                        &mid,
                        final(self).ahead(),
                    ),
                None => final(tree).asked_in_vain(old(tree), id),
            },
            old(self).to_read() matches Some(id) ==> old(tree).lost(id) ==> match old(tree).instead(id) {
                Some(NodeView::Leaf(e, next)) => {
                    let rest = old(self).given(e);
                    rest.len() > 0 ==> {
                        &&& r matches Some((k, v)) && rest[0] == (k@, v@)
                        &&& final(self).strays()
                        &&& final(self).in_leaf() == rest.skip(1)
                        &&& final(self).ahead() == next
                        &&& exists|mid: BPlusTree<M>| #[trigger] mid.asked_once(old(tree), id)
                            && final(tree).looked_ahead(&mid, next)
                    }
                },
                _ => r is None && final(tree).asked_once(old(tree), id),
            },
            r is None && !final(self).strays() && old(self).remaining(old(tree)).len() > 0 ==> {
                &&& final(self).to_read() matches Some(id)
                &&& final(tree).lost(id) || exists|mid: BPlusTree<M>| #[trigger]
                    final(tree).asked_in_vain(&mid, id)
            },
            old(self).in_leaf().len() == 0 && r is Some ==> {
                &&& final(self).ahead() matches Some(id) ==> {
                    &&& final(tree).sought(id)
                    &&& old(tree).wf() && old(tree).reliable() && !old(self).strays() ==> (final(tree).at_hand(id) <==> old(tree).frames() > 0)
                }
            },
    {
        let ghost ls = leaves(tree.shape@);
        let ghost all = self.rest(tree);
        proof {
            lemma_leaves(tree.shape@, tree.pool.pages(), None);
        }
        let mut steps: u64 = u64::MAX;
        loop
            invariant
                tree.readable(),
                tree.unmoved(old(tree)),
                old(self).wf(old(tree)),
                old(tree).wf() && old(tree).reliable() && !old(self).astray ==> tree.wf() && !self.astray,
                old(self).astray ==> self.astray,
                (*self == *old(self) && *tree == *old(tree)) || (old(self).current_leaf is None ==> (old(self).current_id matches Some(id) ==> {
                    &&& !old(self).astray && !old(tree).lost(id) ==> old(self).here(old(tree)).len() == 0
                    &&& old(tree).lost(id) ==> (old(tree).instead(id) matches Some(NodeView::Leaf(e, _))
                        && old(self).given(e).len() == 0)
                })),
                match self.current_leaf {
                    Some(_) => *self == *old(self) && *tree == *old(tree),
                    None => old(self).in_leaf().len() == 0,
                },
                ls == leaves(tree.shape@),
                alike(ls, true),
                row_linked(ls, None),
                self.wf(tree),
                !self.astray ==> self.rest(tree) == all,
                all == old(self).rest(old(tree)),
                self.end == old(self).end,
            decreases
                    (if self.astray {
                        0int
                    } else {
                        1
                    }),
                    (if self.astray {
                        steps as int
                    } else if self.current_id is None {
                        0
                    } else {
                        ls.len() - self.rank@
                    }),
        {
            if self.current_leaf.is_none() {
                let id = match self.current_id {
                    Some(id) => id,
                    None => {
                        return None;
                    },
                };
                if !self.fetch(tree, id) {
                    return None;
                }
            }
            let ghost rank = self.rank@;
            let ghost e = entry_views(self.current_leaf->0.entries@);
            let ghost pos = self.pos as int;
            proof {
                if !self.astray {
                    assert(ls[rank] is Leaf);
                    assert(e == leaf_entries(ls[rank]));
                    if pos < e.len() {
                        assert(all[0] == e[pos]);
                    }
                    lemma_reach_len(all, self.end);
                }
            }
            match self.take_entry() {
                Some(Some(out)) => {
                    proof {
                        if !self.astray {
                            lemma_reach_len(all.drop_first(), self.end);
                            assert(self.rest(tree) =~= all.drop_first());
                            assert(self.remaining(tree) =~= old(self).remaining(old(tree)).skip(1));
                        }
                    }
                    return Some(out);
                },
                Some(None) => {
                    return None;
                },
                None => {},
            }
            proof {
                if !self.astray {
                    lemma_next_leaf(ls, rank, None);
                    lemma_next_rest(ls, rank, pos);
                }
            }
            self.current_id = match &self.current_leaf {
                Some(leaf) => leaf.next,
                None => None,
            };
            self.current_leaf = None;
            self.pos = 0;
            self.rank = Ghost(rank + 1);
            if self.astray {
                if steps == 0 {
                    return None;
                }
                steps -= 1;
            }
        }
    }
}

/// The link of a leaf leads to the next one.
proof fn lemma_next_leaf(ls: Seq<PagedTree>, i: int, next: Option<PageId>)
    requires
        alike(ls, true),
        row_linked(ls, next),
        0 <= i < ls.len(),
    ensures
        ls[i] is Leaf,
        i + 1 < ls.len() ==> ls[i]->Leaf_2 == Some(ls[i + 1].id()),
        i + 1 == ls.len() ==> ls[i]->Leaf_2 == next,
{
    assert(ls[i].linked(after(ls, i, next)));
    assert(ls[i] is Leaf);
    if i + 1 < ls.len() {
        assert(ls[i + 1] is Leaf);
    }
}

/// Behind the last entry of a leaf the next leaf begins.
proof fn lemma_next_rest(ls: Seq<PagedTree>, i: int, pos: int)
    requires
        alike(ls, true),
        0 <= i < ls.len(),
        pos == leaf_entries(ls[i]).len(),
    ensures
        i + 1 < ls.len() ==> rest_at(ls, i, pos) == rest_at(ls, i + 1, 0),
        i + 1 == ls.len() ==> rest_at(ls, i, pos) == Seq::<Entry>::empty(),
{
    assert(ls[i] is Leaf);
    let d = ls.skip(i + 1);
    if i + 1 < ls.len() {
        assert forall|j: int| 0 <= j < d.len() implies ((#[trigger] d[j]) is Leaf) == true by {
            assert(d[j] == ls[i + 1 + j]);
        }
        lemma_first_rest(d);
        assert(d.skip(1) =~= ls.skip(i + 2));
        assert(rest_at(d, 0, 0) == rest_at(ls, i + 1, 0));
        assert(rest_at(ls, i, pos) =~= flat(bare_row(d)));
    } else {
        assert(d =~= Seq::empty());
        assert(bare_row(d) =~= Seq::empty());
        assert(rest_at(ls, i, pos) =~= Seq::<Entry>::empty());
    }
}

/// One node: how deep it lies, whether it is a leaf, and its keys.
pub struct PageLine {
    pub depth: usize,
    pub leaf: bool,
    pub keys: Vec<Key>,
}

/// A tree from top to bottom and left to right, with its degree and its number of entries.
pub struct PageOutline {
    pub t: usize,
    pub len: usize,
    pub lines: Vec<PageLine>,
}

impl PageLine {
    pub open spec fn view(&self) -> LineSpec<Seq<u8>> {
        LineSpec { depth: self.depth as nat, leaf: self.leaf, keys: key_views(self.keys@) }
    }
}

pub open spec fn page_lines(s: Seq<PageLine>) -> Seq<LineSpec<Seq<u8>>> {
    Seq::new(s.len(), |i: int| s[i]@)
}

impl<M: Medium> BPlusTree<M> {
    /// The shape of the tree, line by line. Where a page is lost, the lines are those of what the
    /// pool holds for it.
    pub fn print_tree(&mut self) -> (r: Result<PageOutline, TreeError<M::Error>>)
        requires
            old(self).readable(),
        ensures
            final(self).readable(),
            final(self).same_tree(old(self)),
            r matches Ok(outline) ==> {
                &&& outline.t == old(self).degree()
                &&& outline.len == old(self)@.len()
                &&& old(self).passable(Way::All) ==> page_lines(outline.lines@) == lines_of(
                    old(self).tree(),
                    0,
                )
            },
            r is Ok && old(self).unfailed() ==> final(self).unfailed(),
            old(self).unfailed() && old(self).serves(false) ==> r is Ok,
            old(self).passable(Way::All) ==> !(r matches Err(e) && e is Unreadable),
            r matches Err(e) ==> e is Pool || e is Unreadable,
    {
        proof {
            if self.pool.whole() {
                lemma_whole_clear(self.shape@, Way::All, &self.pool);
            }
        }
        let mut lines: Vec<PageLine> = Vec::new();
        Self::print_node(
            &mut self.pool,
            self.root,
            0,
            &mut lines,
            Ghost(self.shape@),
            Ghost(self.height@),
            Ghost(None),
            Ghost(None),
        )?;
        proof {
            if old(self).passable(Way::All) {
                assert(page_lines(lines@) =~= lines_of(self.tree(), 0));
            }
        }
        Ok(PageOutline { t: self.t, len: self.len, lines })
    }

    /// Adds the lines of what is found from a page on, wherever the pages lead.
    fn print_astray(
        pool: &mut BufferPoolManager<M>,
        id: PageId,
        depth: usize,
        out: &mut Vec<PageLine>,
        steps: u64,
    ) -> (r: Result<(), TreeError<M::Error>>)
        requires
            old(pool).wf(),
            idle(old(pool)),
            depth <= old(out)@.len(),
        ensures
            left_off(final(pool), old(pool)),
            final(out)@.len() >= old(out)@.len(),
            r is Ok ==> final(out)@.len() > old(out)@.len(),
            old(out)@.is_prefix_of(final(out)@),
            r matches Err(e) ==> e is Pool || e is Unreadable,
        decreases steps,
    {
        if steps == 0 {
            return Err(TreeError::Unreadable);
        }
        let r = Self::read_any(pool, id);
        proof {
            pool.lemma_frames();
        }
        match r {
            Ok(Node::Leaf(leaf)) => {
                let keys = entry_keys(&leaf.entries);
                out.push(PageLine { depth, leaf: true, keys });
                Ok(())
            },
            Ok(Node::Internal(internal)) => {
                let children = internal.children;
                out.push(PageLine { depth, leaf: false, keys: internal.keys });
                let n = out.len();
                let mut c: usize = 0;
                while c < children.len()
                    invariant
                        c <= children@.len(),
                        left_off(pool, old(pool)),
                        depth + 1 <= n <= out@.len(),
                        out@.len() > old(out)@.len(),
                        old(out)@.is_prefix_of(out@),
                        steps > 0,
                    decreases children@.len() - c,
                {
                    let r = Self::print_astray(pool, children[c], depth + 1, out, steps - 1);
                    if let Err(e) = r {
                        return Err(e);
                    }
                    c += 1;
                }
                Ok(())
            },
            Err(e) => Err(e),
        }
    }

    /// Adds the lines of the tree below a node.
    #[verifier::rlimit(50)]
    fn print_node(
        pool: &mut BufferPoolManager<M>,
        id: PageId,
        depth: usize,
        out: &mut Vec<PageLine>,
        Ghost(m): Ghost<PagedTree>,
        Ghost(h): Ghost<nat>,
        Ghost(lo): Ghost<Option<Seq<u8>>>,
        Ghost(hi): Ghost<Option<Seq<u8>>>,
    ) -> (r: Result<(), TreeError<M::Error>>)
        requires
            old(pool).wf(),
            old(pool).plain(),
            idle(old(pool)),
            id == m.id(),
            m.stored(old(pool).pages()),
            sorted_tree(m.bare(), h, lo, hi),
            neat(m.bare()),
            depth <= old(out)@.len(),
        ensures
            left_off(final(pool), old(pool)),
            r is Ok && old(pool).whole() ==> final(pool).whole(),
            forall|j: PageId| r is Ok && clear(m, Way::All, old(pool)) && #[trigger] final(pool).stale(j)
                ==> old(pool).stale(j),
            r is Ok && clear(m, Way::All, old(pool)) ==> page_lines(final(out)@) == page_lines(
                old(out)@,
            ) + lines_of(m.bare(), depth as nat),
            r is Ok ==> final(out)@.len() > old(out)@.len(),
            old(pool).whole() && calm(old(pool)) ==> r is Ok,
            clear(m, Way::All, old(pool)) ==> !(r matches Err(e) && e is Unreadable),
            r matches Err(e) ==> e is Pool || e is Unreadable,
        decreases h,
    {
        let ghost p = pool.pages();
        let ghost is_clear = clear(m, Way::All, pool);
        proof {
            lemma_stored_node(m, p);
            lemma_bare(m);
            pool.lemma_vacant(id);
            if pool.whole() {
                pool.lemma_whole(id);
                lemma_whole_clear(m, Way::All, pool);
            }
        }
        if pool.is_vacant(id) {
            return Self::print_astray(pool, id, depth, out, u64::MAX);
        }
        let node = match Self::read_node(pool, id) {
            Ok(node) => node,
            Err(e) => {
                proof {
                    pool.lemma_frames();
                }
                return Err(e);
            },
        };
        match node {
            Node::Leaf(leaf) => {
                let ghost e = entry_views(leaf.entries@);
                let keys = entry_keys(&leaf.entries);
                assert(key_views(keys@) =~= keys_of(e));
                out.push(PageLine { depth, leaf: true, keys });
                assert(page_lines(out@) =~= page_lines(old(out)@) + lines_of(m.bare(), depth as nat));
                Ok(())
            },
            Node::Internal(internal) => {
                let ghost ch = m.kids();
                let ghost keys = m->Node_1;
                let ghost bare = bare_row(ch);
                let children = internal.children;
                let ghost head = seq![LineSpec { depth: depth as nat, leaf: false, keys }];
                out.push(PageLine { depth, leaf: false, keys: internal.keys });
                proof {
                    assert(m is Node);
                    assert(children@ == row_ids(ch));
                    assert(page_lines(out@) =~= page_lines(old(out)@) + head + lines_of_row(
                        bare.take(0),
                        (depth + 1) as nat,
                    ));
                }
                let n = out.len();
                let mut c: usize = 0;
                while c < children.len()
                    invariant
                        c <= children@.len(),
                        children@ == row_ids(ch),
                        bare == bare_row(ch),
                        depth + 1 <= n <= out@.len(),
                        out@.len() > old(out)@.len(),
                        h > 0,
                        sorted_tree(Tree::Internal(keys, bare), h, lo, hi),
                        neat(Tree::Internal(keys, bare)),
                        row_stored(ch, p),
                        p == old(pool).pages(),
                        left_off(pool, old(pool)),
                        old(pool).plain(),
                        old(pool).whole() ==> pool.whole() && is_clear,
                        is_clear ==> forall|i: int|
                            0 <= i < ch.len() ==> clear(#[trigger] ch[i], Way::All, old(pool)),
                        is_clear ==> forall|j: PageId| #[trigger] pool.stale(j) ==> old(pool).stale(j),
                        is_clear == clear(m, Way::All, old(pool)),
                        is_clear ==> page_lines(out@) == page_lines(old(out)@) + head + lines_of_row(
                            bare.take(c as int),
                            (depth + 1) as nat,
                        ),
                    decreases children@.len() - c,
                {
                    let ghost mid = *pool;
                    proof {
                        assert(bare[c as int] == ch[c as int].bare());
                        assert(neat(bare[c as int]));
                        assert(row_ids(ch)[c as int] == ch[c as int].id());
                        assert(ch[c as int].stored(p));
                        assert(sorted_tree(
                            bare[c as int],
                            (h - 1) as nat,
                            child_lo(keys, c as int, lo),
                            child_hi(keys, c as int, hi),
                        ));
                        if is_clear {
                            lemma_clear(ch[c as int], Way::All, pool, old(pool));
                        }
                    }
                    let r = Self::print_node(
                        pool,
                        children[c],
                        depth + 1,
                        out,
                        Ghost(ch[c as int]),
                        Ghost((h - 1) as nat),
                        Ghost(child_lo(keys, c as int, lo)),
                        Ghost(child_hi(keys, c as int, hi)),
                    );
                    if let Err(e) = r {
                        return Err(e);
                    }
                    proof {
                        assert forall|j: PageId| is_clear && #[trigger] pool.stale(j) implies old(pool).stale(j) by {
                            assert(mid.stale(j));
                        }
                        if is_clear {
                            assert(bare.take(c + 1).drop_last() =~= bare.take(c as int));
                            assert(bare.take(c + 1).last() == bare[c as int]);
                            assert(page_lines(out@) =~= page_lines(old(out)@) + head + lines_of_row(
                                bare.take(c + 1),
                                (depth + 1) as nat,
                            ));
                        }
                    }
                    c += 1;
                }
                proof {
                    if is_clear {
                        assert(bare.take(c as int) =~= bare);
                        assert(page_lines(out@) =~= page_lines(old(out)@) + lines_of(m.bare(), depth as nat));
                    }
                }
                Ok(())
            },
        }
    }
}

/// The keys of entries.
fn entry_keys(entries: &Vec<LeafEntry>) -> (keys: Vec<Key>)
    ensures
        keys@.len() == entries@.len(),
        forall|j: int| 0 <= j < entries@.len() ==> (#[trigger] keys@[j])@ == entries@[j].key@,
{
    let mut keys: Vec<Key> = Vec::new();
    let mut i: usize = 0;
    while i < entries.len()
        invariant
            i <= entries@.len(),
            keys@.len() == i,
            forall|j: int| 0 <= j < i ==> (#[trigger] keys@[j])@ == entries@[j].key@,
        decreases entries@.len() - i,
    {
        keys.push(entries[i].key.clone());
        i += 1;
    }
    keys
}

/// Halving the cells of a page is halving the entries of its leaf.
proof fn lemma_leaf_halved(b: Seq<u8>, e: Seq<Entry>, k: Seq<u8>, l: int, r: int)
    requires
        0 <= l <= r <= e.len(),
        forall|i: int| 0 <= i < e.len() ==> (#[trigger] e[i]).0 == leaf_key(b, i),
    ensures
        leaf_halved(b, k, l, r) == halved(e, k, l, r),
    decreases r - l,
{
    if l < r {
        let mid = l + (r - l) / 2;
        assert(e[mid].0 == leaf_key(b, mid));
        lemma_leaf_halved(b, e, k, mid + 1, r);
        lemma_leaf_halved(b, e, k, l, mid);
    }
}

/// No page below the topmost node on the way is one that could not be brought in before.
pub open spec fn clear_below<M: Medium>(m: PagedTree, w: Way, pool: &BufferPoolManager<M>) -> bool {
    m matches PagedTree::Node(_, keys, ch) ==> forall|i: int|
        0 <= i < ch.len() && w.takes(keys, i) ==> clear(#[trigger] ch[i], w, pool)
}

/// The pages are as they were.
pub open spec fn left_off_held<M: Medium>(
    pool: &BufferPoolManager<M>,
    o: &BufferPoolManager<M>,
) -> bool {
    &&& pool.wf()
    &&& pool.frames() == o.frames()
    &&& pool.reliable() == o.reliable()
    &&& pool.room() == o.room()
    &&& pool.pages() == o.pages()
    &&& o.plain() ==> pool.plain()
    &&& moved(pool, o, (0, 0))
}

/// The pages are as they were, and nobody holds one.
pub open spec fn left_off<M: Medium>(pool: &BufferPoolManager<M>, o: &BufferPoolManager<M>) -> bool {
    left_off_held(pool, o) && idle(pool)
}

/// Exactly one guard is held: one to read frame `f`.
pub open spec fn only_read<M: Medium>(pool: &BufferPoolManager<M>, f: int) -> bool {
    &&& 0 <= f < pool.frames()
    &&& pool.pins().len() == pool.frames()
    &&& forall|g: int| 0 <= g < pool.frames() ==> #[trigger] pool.pins()[g] == if g == f {
        1
    } else {
        0u32
    }
    &&& pool.held() == 1
    &&& pool.touched() == Set::<int>::empty()
}

proof fn lemma_now_only_read<M: Medium>(
    pool: &BufferPoolManager<M>,
    o: &BufferPoolManager<M>,
    f: int,
    id: PageId,
)
    requires
        idle(o),
        pool.wf(),
        pool.brought(o, id, f),
        pool.frames() == o.frames(),
        pool.touched() == o.touched(),
    ensures
        only_read(pool, f),
{
    pool.lemma_frames();
}

proof fn lemma_idle_read<M: Medium>(pool: &BufferPoolManager<M>, o: &BufferPoolManager<M>, f: int)
    requires
        only_read(o, f),
        pool.let_go(o, f),
        pool.touched() == o.touched(),
    ensures
        idle(pool),
{
}

/// A root with two children.
fn make_root(key: Key, left: PageId, right: PageId) -> (r: Node)
    ensures
        r@ == NodeView::Internal(seq![key@], seq![left, right]),
{
    let mut keys: Vec<Key> = Vec::new();
    keys.push(key);
    let mut children: Vec<PageId> = Vec::new();
    children.push(left);
    children.push(right);
    let r = Internal { keys, children };
    assert(key_views(r.keys@) =~= seq![key@]);
    assert(r.children@ =~= seq![left, right]);
    Node::Internal(r)
}

/// All nodes of the tree but those below child `ci` fit on their pages.
pub open spec fn neat_but(m: ByteTree, ci: int) -> bool {
    &&& roomy(m)
    &&& m matches Tree::Internal(_, ch) ==> forall|i: int|
        0 <= i < ch.len() && i != ci ==> neat(#[trigger] ch[i])
}

proof fn lemma_neat_but(m: ByteTree)
    requires
        neat(m),
    ensures
        forall|ci: int| #[trigger] neat_but(m, ci),
{
    assert forall|ci: int| #[trigger] neat_but(m, ci) by {}
}

/// A root without keys is as neat as its only child.
proof fn lemma_neat_single(m: ByteTree)
    requires
        m matches Tree::Internal(keys, ch) && keys.len() == 0 && ch.len() == 1,
    ensures
        neat(m) == neat(m->Internal_1[0]),
{
    let ch = m->Internal_1;
    assert(page_view(m).cells().len() == 0);
    assert(roomy(m));
    if neat(ch[0]) {
        assert forall|i: int| 0 <= i < ch.len() implies neat(#[trigger] ch[i]) by {}
    }
}

/// Whether a tree is neat after one of its subtrees was changed.
proof fn lemma_neat_update(keys: Seq<Seq<u8>>, ch: Seq<ByteTree>, ci: int, c: ByteTree)
    requires
        0 <= ci < ch.len(),
    ensures
        neat(Tree::Internal(keys, ch.update(ci, c))) == (neat_but(Tree::Internal(keys, ch), ci) && neat(c)),
{
    let d = ch.update(ci, c);
    let a: ByteTree = Tree::Internal(keys, ch);
    let b: ByteTree = Tree::Internal(keys, d);
    assert(roomy(a) == roomy(b));
    assert(a->Internal_1 == ch && b->Internal_1 == d);
    if neat(b) {
        assert forall|i: int| 0 <= i < ch.len() && i != ci implies neat(#[trigger] ch[i]) by {
            assert(d[i] == ch[i]);
            assert(neat(b->Internal_1[i]));
        }
        assert(neat(b->Internal_1[ci]));
        assert(d[ci] == c);
    }
    if neat_but(a, ci) && neat(c) {
        assert forall|i: int| 0 <= i < d.len() implies neat(#[trigger] d[i]) by {
            if i != ci {
                assert(neat(a->Internal_1[i]));
                assert(d[i] == ch[i]);
            } else {
                assert(d[i] == c);
            }
        }
    }
}

/// Which subtrees are neat, read off which of the rebalanced nodes fit.
proof fn lemma_others(d: Seq<ByteTree>, fit: Seq<bool>, l: int, cj: int)
    requires
        0 <= l,
        l + fit.len() <= d.len(),
        forall|i: int|
            0 <= i < d.len() ==> #[trigger] neat(d[i]) == (l <= i < l + fit.len() ==> fit[i - l]),
    ensures
        (forall|i: int| 0 <= i < d.len() && i != cj ==> neat(#[trigger] d[i])) == (forall|j: int|
            0 <= j < fit.len() && l + j != cj ==> #[trigger] fit[j]),
{
    if forall|i: int| 0 <= i < d.len() && i != cj ==> neat(#[trigger] d[i]) {
        assert forall|j: int| 0 <= j < fit.len() && l + j != cj implies #[trigger] fit[j] by {
            assert(neat(d[l + j]));
        }
    }
    if forall|j: int| 0 <= j < fit.len() && l + j != cj ==> #[trigger] fit[j] {
        assert forall|i: int| 0 <= i < d.len() && i != cj implies neat(#[trigger] d[i]) by {
            if l <= i < l + fit.len() {
                assert(fit[i - l]);
            }
        }
    }
}

/// All are true but perhaps the one that stands for child `cj`; the first one stands for child
/// `left`.
fn others_hold(fit: &Vec<bool>, left: usize, cj: usize) -> (r: bool)
    requires
        left + fit@.len() <= usize::MAX,
    ensures
        r == (forall|j: int| 0 <= j < fit@.len() && left + j != cj ==> #[trigger] fit@[j]),
{
    let mut j: usize = 0;
    while j < fit.len()
        invariant
            j <= fit@.len(),
            left + fit@.len() <= usize::MAX,
            forall|i: int| 0 <= i < j && left + i != cj ==> #[trigger] fit@[i],
        decreases fit@.len() - j,
    {
        if left + j != cj && !fit[j] {
            return false;
        }
        j += 1;
    }
    true
}

/// A tree all of whose nodes fit on their pages is open to any change.
proof fn lemma_open_way(
    m: ByteTree,
    h: nat,
    lo: Option<Seq<u8>>,
    hi: Option<Seq<u8>>,
    k: Seq<u8>,
    t: int,
    adds: bool,
)
    requires
        sorted_tree(m, h, lo, hi),
        neat(m),
    ensures
        open_way(m, k, t, adds),
{
    if let Tree::Internal(keys, ch) = m {
        lemma_left_route(keys, k);
        assert(neat(ch[left_route(keys, k) as int]));
    }
}

proof fn lemma_headed(m: ByteTree)
    requires
        roomy(m),
    ensures
        headed(m),
        packed(m),
{
}

/// Whether the head of an inner node is left alone rests on its keys.
proof fn lemma_headed_keys(a: ByteTree, b: ByteTree)
    requires
        a is Internal,
        b is Internal,
        a->Internal_0 == b->Internal_0,
    ensures
        headed(a) == headed(b),
{
}

/// After a full root was split, the way to `k` is open if the new root and the half that it takes
/// fit on their pages.
proof fn lemma_split_way(m: ByteTree, h: nat, k: Seq<u8>, t: int)
    requires
        sorted_tree(m, h, None, None),
        neat(m),
        m.count() == 2 * t - 1,
        t >= 2,
    ensures
        can_split(m, k, t) ==> open_way(split_root(m, t), k, t, true),
        roomy(split_root(m, t)) ==> neat_but(
            split_root(m, t),
            left_route(seq![cut(m, split_at(m, t)).1], k) as int,
        ) == roomy(
            if bytes_lt(cut(m, split_at(m, t)).1, k) {
                cut(m, split_at(m, t)).0
            } else {
                cut(m, split_at(m, t)).2
            },
        ),
        left_route(seq![cut(m, split_at(m, t)).1], k) == if bytes_lt(cut(m, split_at(m, t)).1, k) {
            1nat
        } else {
            0
        },
{
    let (a, s, b) = cut(m, split_at(m, t));
    reveal_with_fuel(left_route, 2);
    assert(seq![s].drop_first() =~= Seq::empty());
    match m {
        Tree::Leaf(_) => {},
        Tree::Internal(_, ch) => {
            let x = a->Internal_1;
            let y = b->Internal_1;
            assert forall|i: int| 0 <= i < x.len() implies neat(#[trigger] x[i]) by {
                assert(x[i] == ch[i]);
            }
            assert forall|i: int| 0 <= i < y.len() implies neat(#[trigger] y[i]) by {
                assert(y[i] == ch[t + i]);
            }
        },
    }
    let c = seq![a, b];
    assert(c[0] == a && c[1] == b);
    assert(neat(a) == roomy(a));
    assert(neat(b) == roomy(b));
    let ci = if bytes_lt(s, k) {
        1int
    } else {
        0
    };
    assert(split_root(m, t)->Internal_1 == c);
    if neat_but(split_root(m, t), ci) {
        assert(neat(c[1 - ci]));
    } else if roomy(split_root(m, t)) {
        let i = choose|i: int| 0 <= i < c.len() && i != ci && !neat(#[trigger] c[i]);
        assert(i == 1 - ci);
    }
}

/// The head of a root whose cells leave it alone.
proof fn lemma_root_head(m: PagedTree, p: Map<PageId, Seq<u8>>)
    requires
        m.stored(p),
        headed(m.bare()),
    ensures
        typed(p[m.id()][0]),
        (p[m.id()][0] == 1) == (m is Leaf),
        count_of(p[m.id()]) == m.bare().count(),
        link_of(p[m.id()]) == m.shape().link(),
{
    lemma_bare(m);
    lemma_roomy(m.shape(), m.bare());
    lemma_head(m.shape());
    if m.shape().fits() {
        assert(node_of(p[m.id()]) == m.shape());
        let b = p[m.id()];
        match m {
            PagedTree::Leaf(_, e, next) => {
                assert(node_of(b)->Leaf_1 == next);
            },
            PagedTree::Node(_, k, ch) => {
                assert(node_of(b)->Internal_0.len() == k.len());
                assert(node_of(b)->Internal_1 == row_ids(ch));
                assert(m.shape().sound());
                if ch.len() > 0 {
                    assert(first_child(b).len() == 1);
                    assert(node_of(b)->Internal_1[0] == link_of(b));
                }
            },
        }
    }
}

/// Whether the child that the way takes after its window was rebalanced fits on its page.
proof fn lemma_way_on(
    keys: Seq<Seq<u8>>,
    ch: Seq<PagedTree>,
    h: nat,
    lo: Option<Seq<u8>>,
    hi: Option<Seq<u8>>,
    l: int,
    r: int,
    n: int,
    cj: int,
)
    requires
        sorted_tree(Tree::Internal(keys, bare_row(ch)), h, lo, hi),
        forall|i: int| 0 <= i < ch.len() ==> neat(#[trigger] bare_row(ch)[i]),
        0 <= l <= r < ch.len(),
        1 <= n,
        can_deal(joined(keys, bare_row(ch), l, r), n),
        0 <= cj < ch.len() - (r - l + 1) + n,
    ensures
        ({
            let d = dealt(keys, bare_row(ch), l, r, n)->Internal_1;
            let fits = l <= cj < l + n ==> part_fits(joined_views(keys, ch, l, r), n, cj - l);
            &&& fits == roomy(d[cj])
            &&& fits ==> neat(d[cj])
        }),
{
    let bare = bare_row(ch);
    let m = joined(keys, bare, l, r);
    let d = dealt(keys, bare, l, r, n)->Internal_1;
    lemma_alike(keys, ch, h, lo, hi);
    lemma_joined(keys, bare, h, lo, hi, l, r);
    assert forall|i: int| l <= i <= r implies ((#[trigger] bare[i]) is Leaf) == (bare[l] is Leaf) by {
        lemma_bare(ch[i]);
        lemma_bare(ch[l]);
        assert(bare[i] == ch[i].bare() && bare[l] == ch[l].bare());
        assert((ch[i] is Leaf) == (h == 1) && (ch[l] is Leaf) == (h == 1));
    }
    if l <= cj < l + n {
        let w = Seq::new(n as nat, |j: int| 0u64);
        assert(d[cj] == parts(m, n)[cj - l]);
        assert(window(keys, ch, l, r, n, h == 1));
        lemma_part_roomy(keys, ch, l, r, w, h == 1, cj - l);
        if part_fits(joined_views(keys, ch, l, r), n, cj - l) {
            lemma_part_neat(keys, bare, l, r, n, cj - l);
        }
    } else if cj < l {
        assert(d[cj] == bare[cj]);
    } else {
        assert(d[cj] == bare[cj - n + r - l + 1]);
    }
}

proof fn lemma_only_unheld<M: Medium>(pool: &BufferPoolManager<M>, f: int, id: PageId, x: PageId)
    requires
        only(pool, f),
        pool.at(f) == Some(id),
        x != id,
    ensures
        unheld(pool, x),
{
}

/// Holding a page where nothing was held.
proof fn lemma_now_only<M: Medium>(
    pool: &BufferPoolManager<M>,
    o: &BufferPoolManager<M>,
    f: int,
    id: PageId,
)
    requires
        idle(o),
        pool.wf(),
        pool.brought(o, id, f),
        pool.frames() == o.frames(),
        pool.touched() == o.touched().insert(f),
    ensures
        only(pool, f),
{
    pool.lemma_frames();
}

/// The halves of a stored root name pages that there are.
proof fn lemma_halves_sound(m: PagedTree, t: int, right_id: PageId, p: Map<PageId, Seq<u8>>)
    requires
        t >= 2,
        m.bare().count() == 2 * t - 1,
        m matches PagedTree::Node(_, k, ch) ==> ch.len() == k.len() + 1,
        m.stored(p),
        right_id != NULL_PAGE,
    ensures
        left_half(m.shape(), t, right_id).sound(),
        right_half(m.shape(), t).sound(),
{
    lemma_bare(m);
    assert(m.shape().sound());
    if let PagedTree::Node(_, k, ch) = m {
        assert(ch[t].stored(p));
        assert(row_ids(ch).skip(t)[0] == ch[t].id());
    }
}

/// The child on the way to `k` can be made ready.
pub open spec fn can_step(
    keys: Seq<Seq<u8>>,
    ch: Seq<ByteTree>,
    k: Seq<u8>,
    t: int,
    adds: bool,
) -> bool {
    let ci = left_route(keys, k) as int;
    tense(ch[ci].count() as int, t, adds) ==> can_ready(keys, ch, ci, k, t)
}

proof fn lemma_fences(k: Seq<Seq<u8>>, lo: Option<Seq<u8>>, hi: Option<Seq<u8>>)
    requires
        fences(k, lo, hi),
    ensures
        fences(k, None, None),
{
}

proof fn lemma_rebuilt_same(m: PagedTree, p: Map<PageId, Seq<u8>>)
    requires
        m.stored(p),
        m.distinct(),
    ensures
        rebuilt_tree(m, m, p, p),
{
}

/// The way that is read off the page of a node is the way of the node.
proof fn lemma_route_page(
    page: Seq<u8>,
    keys: Seq<Seq<u8>>,
    ids: Seq<PageId>,
    k: Seq<u8>,
    ci: int,
    child: PageId,
    h: nat,
    lo: Option<Seq<u8>>,
    hi: Option<Seq<u8>>,
    bare: Seq<ByteTree>,
)
    requires
        legible(page),
        node_of(page) == NodeView::Internal(keys, ids),
        ids.len() == keys.len() + 1,
        sorted_tree(Tree::Internal(keys, bare), h, lo, hi),
        0 <= ci <= count_of(page),
        ci > 0 ==> bytes_lt(internal_key(page, ci - 1), k),
        ci < count_of(page) ==> bytes_le(k, internal_key(page, ci)),
        child == child_of(page, ci),
    ensures
        ci == left_route(keys, k),
        ci < ids.len(),
        child == ids[ci],
{
    assert(keys.len() == count_of(page));
    if ci > 0 {
        assert(keys[ci - 1] == internal_key(page, ci - 1));
    }
    if ci < keys.len() {
        assert(keys[ci] == internal_key(page, ci));
    }
    lemma_left_route_is(keys, k, ci);
    assert(first_child(page).len() == 1);
}

/// The number of cells on a page is the count of its node.
proof fn lemma_page_count(m: PagedTree, p: Map<PageId, Seq<u8>>)
    requires
        m.stored(p),
        roomy(m.bare()),
    ensures
        count_of(p[m.id()]) == m.bare().count(),
{
    lemma_bare(m);
    lemma_stored_node(m, p);
    assert(node_of(p[m.id()]) == m.shape());
}

/// Exactly one guard is held: one to write frame `f`.
pub open spec fn only<M: Medium>(pool: &BufferPoolManager<M>, f: int) -> bool {
    &&& 0 <= f < pool.frames()
    &&& pool.pins().len() == pool.frames()
    &&& forall|g: int| 0 <= g < pool.frames() ==> #[trigger] pool.pins()[g] == if g == f {
        1
    } else {
        0u32
    }
    &&& pool.held() == 1
    &&& pool.touched() == Set::<int>::empty().insert(f)
}

/// No guard is held.
pub open spec fn idle<M: Medium>(pool: &BufferPoolManager<M>) -> bool {
    &&& forall|g: int| 0 <= g < pool.frames() ==> #[trigger] pool.pins()[g] == 0
    &&& pool.pins().len() == pool.frames()
    &&& pool.held() == 0
    &&& pool.touched() == Set::<int>::empty()
}

/// An operation has ended without fault and has got at most `n` pages from the medium.
pub open spec fn done<M: Medium>(
    o: &BufferPoolManager<M>,
    pool: &BufferPoolManager<M>,
    n: nat,
) -> bool {
    &&& pool.wf()
    &&& pool.whole()
    &&& idle(pool)
    &&& pool.frames() == o.frames()
    &&& pool.reliable() == o.reliable()
    &&& pool.room() + n >= o.room()
}

pub open spec fn opt_view(v: Option<Vec<u8>>) -> Option<Seq<u8>> {
    match v {
        Some(v) => Some(v@),
        None => None,
    }
}

/// Letting go of the only guard leaves none.
proof fn lemma_idle<M: Medium>(pool: &BufferPoolManager<M>, o: &BufferPoolManager<M>, f: int)
    requires
        o.wf(),
        only(o, f),
        pool.wf(),
        pool.let_go(o, f),
        pool.touched() == o.touched().remove(f),
    ensures
        idle(pool),
{
    assert(pool.touched() =~= Set::<int>::empty());
}

/// The page is that of a leaf whose first key is `k`.
pub open spec fn starts(page: Seq<u8>, k: Seq<u8>) -> bool {
    &&& legible(page)
    &&& node_of(page) matches NodeView::Leaf(e, _) && e.len() > 0 && e[0].0 == k
}

/// Which of the nodes fit on their pages.
fn which_fit(nodes: &Vec<Node>) -> (r: Vec<bool>)
    ensures
        r@.len() == nodes@.len(),
        forall|i: int| 0 <= i < nodes@.len() ==> #[trigger] r@[i] == nodes@[i]@.fits(),
{
    let mut r: Vec<bool> = Vec::new();
    let mut i: usize = 0;
    while i < nodes.len()
        invariant
            i <= nodes@.len(),
            r@.len() == i,
            forall|j: int| 0 <= j < i ==> #[trigger] r@[j] == nodes@[j]@.fits(),
        decreases nodes@.len() - i,
    {
        r.push(nodes[i].fits());
        i += 1;
    }
    r
}

/// All but the first are true.
fn rest_hold(fit: &Vec<bool>) -> (r: bool)
    ensures
        r == (forall|i: int| 1 <= i < fit@.len() ==> #[trigger] fit@[i]),
{
    let mut i: usize = 1;
    while i < fit.len()
        invariant
            1 <= i,
            forall|j: int| 1 <= j < i && j < fit@.len() ==> #[trigger] fit@[j],
        decreases fit@.len() - i,
    {
        if !fit[i] {
            return false;
        }
        i += 1;
    }
    true
}

/// Which pages are read for a window, in turn: all of them to be counted, the first one to see what
/// they are, the last one of leaves for its link, and all of them for what they hold.
pub open spec fn window_tour(c: Seq<PageId>, l: int, r: int, leaf: bool) -> Seq<PageId> {
    let w = c.subrange(l, r + 1);
    let last = if leaf {
        seq![c[r]]
    } else {
        Seq::empty()
    };
    w + seq![c[l]] + last + w
}

/// How many nodes `width` nodes that hold `total` together are dealt out to.
fn window_count(total: usize, width: usize, t: usize, max_keys: usize) -> (r: usize)
    requires
        1 <= width <= 3,
        3 * t <= usize::MAX,
        1 <= max_keys,
        3 * max_keys <= usize::MAX,
    ensures
        r == target(total as int, width as int, t as int, max_keys as int),
        1 <= r,
        width - 1 <= r <= width + 1,
{
    proof {
        assert(width * (max_keys - 1) <= 3 * (max_keys - 1)) by (nonlinear_arith)
            requires
                1 <= width <= 3,
                max_keys >= 1,
        ;
        assert(width * t <= 3 * t) by (nonlinear_arith)
            requires
                1 <= width <= 3,
                t >= 0,
        ;
    }
    let needs_split = total > width * (max_keys - 1);
    let needs_merge = total < width * t;
    if needs_split {
        width + 1
    } else if needs_merge && width > 1 {
        width - 1
    } else {
        width
    }
}

/// Puts other separators and children in place of those of neighbours.
fn replace_window(
    parent: &mut Internal,
    left: usize,
    right: usize,
    seps: Vec<Key>,
    ids: Vec<PageId>,
)
    requires
        left <= right < old(parent).children.len(),
        old(parent).keys@.len() + 1 == old(parent).children@.len(),
    ensures
        key_views(final(parent).keys@) == key_views(old(parent).keys@).take(left as int) + key_views(
            seps@,
        ) + key_views(old(parent).keys@).skip(right as int),
        final(parent).children@ == old(parent).children@.take(left as int) + ids@ + old(
            parent,
        ).children@.skip(right + 1),
{
    let ghost k0 = parent.keys@;
    let mut seps = seps;
    let mut ids = ids;
    let ghost s0 = seps@;
    let mut tail_keys = parent.keys.split_off(right);
    let mut tail_children = parent.children.split_off(right + 1);
    parent.keys.truncate(left);
    parent.children.truncate(left);
    parent.keys.append(&mut seps);
    parent.keys.append(&mut tail_keys);
    parent.children.append(&mut ids);
    parent.children.append(&mut tail_children);
    proof {
        assert(parent.keys@ =~= k0.take(left as int) + s0 + k0.skip(right as int));
        assert(key_views(parent.keys@) =~= key_views(k0).take(left as int) + key_views(s0) + key_views(
            k0,
        ).skip(right as int));
    }
}

/// Of the pages `c[l]` to `c[r]` were made `n` parts of the node `v`: they are on their pages, one
/// page is new or given back as need be, and all other pages are as they were.
pub open spec fn parts_written(
    c: Seq<PageId>,
    p: Map<PageId, Seq<u8>>,
    q: Map<PageId, Seq<u8>>,
    l: int,
    r: int,
    n: int,
    fresh: PageId,
    v: NodeView,
) -> bool {
    let ids = part_ids(c, l, r, n, fresh);
    &&& q.dom() == part_pages(p.dom(), c, l, r, n, fresh)
    &&& n == r - l + 2 ==> !p.contains_key(fresh) && fresh != NULL_PAGE
    &&& forall|i: int| 0 <= i < n ==> q[#[trigger] ids[i]] == part_view(v, ids, i).image()
    &&& forall|x: PageId| #[trigger]
        p.contains_key(x) && (forall|k: int| l <= k <= r ==> #[trigger] c[k] != x) ==> q.contains_key(x)
            && q[x] == p[x]
}

proof fn lemma_node_count(node: Node)
    ensures
        node.spec_count() == view_count(node@),
{
    match node {
        Node::Leaf(leaf) => {
            assert(entry_views(leaf.entries@).len() == leaf.entries@.len());
        },
        Node::Internal(internal) => {
            assert(key_views(internal.keys@).len() == internal.keys@.len());
        },
    }
}

/// The children of a node are all leaves or all inner nodes.
proof fn lemma_alike(
    keys: Seq<Seq<u8>>,
    ch: Seq<PagedTree>,
    h: nat,
    lo: Option<Seq<u8>>,
    hi: Option<Seq<u8>>,
)
    requires
        sorted_tree(Tree::Internal(keys, bare_row(ch)), h, lo, hi),
    ensures
        alike(ch, h == 1),
        ch.len() == keys.len() + 1,
        h == 1 || (forall|i: int|
            0 <= i < ch.len() ==> (#[trigger] ch[i]).kids().len() == ch[i]->Node_1.len() + 1),
{
    let bare = bare_row(ch);
    assert forall|i: int| 0 <= i < ch.len() implies ((#[trigger] ch[i]) is Leaf) == (h == 1) && (h == 1
        || ch[i].kids().len() == ch[i]->Node_1.len() + 1) by {
        assert(bare[i] == ch[i].bare());
        lemma_bare(ch[i]);
        assert(sorted_tree(bare[i], (h - 1) as nat, child_lo(keys, i, lo), child_hi(keys, i, hi)));
    }
}

/// What is known of the page of a stored node.
proof fn lemma_stored_node(m: PagedTree, p: Map<PageId, Seq<u8>>)
    requires
        m.stored(p),
        roomy(m.bare()),
    ensures
        p[m.id()].len() == PAGE_SIZE,
        p.contains_key(m.id()),
        legible(p[m.id()]),
        node_of(p[m.id()]) == m.shape(),
        m.id() != NULL_PAGE,
        m.bare().count() <= 4096,
{
    lemma_bare(m);
    lemma_roomy(m.shape(), m.bare());
    assert(m.shape().cells().len() == m.bare().count());
}

proof fn lemma_view_count(m: PagedTree, node: Node)
    requires
        node@ == m.shape(),
    ensures
        node.spec_count() == m.bare().count(),
        (node is Leaf) == (m is Leaf),
{
    lemma_bare(m);
    match node {
        Node::Leaf(leaf) => {
            assert(entry_views(leaf.entries@).len() == leaf.entries@.len());
        },
        Node::Internal(internal) => {
            assert(key_views(internal.keys@).len() == internal.keys@.len());
        },
    }
}

/// What neighbours hold together, with and without page numbers.
proof fn lemma_joined_pair(keys: Seq<Seq<u8>>, ch: Seq<PagedTree>, l: int, r: int, leaves: bool)
    requires
        0 <= l <= r < ch.len(),
        alike(ch, leaves),
        joined(keys, bare_row(ch), l, r) matches Tree::Internal(k, c) ==> c.len() == k.len() + 1,
    ensures
        match (joined_views(keys, ch, l, r), joined(keys, bare_row(ch), l, r)) {
            (NodeView::Leaf(e, _), Tree::Leaf(x)) => e == x && leaves,
            (NodeView::Internal(k, c), Tree::Internal(x, _)) => k == x && c.len() == k.len() + 1 && !leaves,
            _ => false,
        },
{
    let ids = seq![ch[l].id()];
    assert(window(keys, ch, l, r, 1, leaves));
    lemma_parts(keys, ch, l, r, ids, leaves);
}

/// Nobody holds a page that nobody held before, while the guards stay the same.
proof fn lemma_unheld<M: Medium>(pool: &BufferPoolManager<M>, o: &BufferPoolManager<M>, id: PageId)
    requires
        pool.keeps(o),
        pool.pins() == o.pins(),
        unheld(o, id),
    ensures
        unheld(pool, id),
{
    assert forall|f: int| 0 <= f < pool.frames() && #[trigger] pool.pins()[f] > 0 implies pool.at(f)
        != Some(id) by {
        assert(o.pins()[f] > 0);
        assert(pool.at(f) == o.at(f));
    }
}

proof fn lemma_quiet<M: Medium>(
    a: &BufferPoolManager<M>,
    b: &BufferPoolManager<M>,
    c: &BufferPoolManager<M>,
)
    requires
        a.quiet(b),
        b.quiet(c),
    ensures
        a.quiet(c),
{
    assert forall|g: int| 0 <= g < c.frames() && c.pins()[g] > 0 implies a.at(g) == c.at(g)
        && a.bytes_at(g) == c.bytes_at(g) by {
        assert(b.at(g) == c.at(g));
        assert(b.bytes_at(g) == c.bytes_at(g));
    }
}

/// The parts of a window name pages that there are.
proof fn lemma_part_sound(
    keys: Seq<Seq<u8>>,
    ch: Seq<PagedTree>,
    l: int,
    r: int,
    ids: Seq<PageId>,
    leaves: bool,
    p: Map<PageId, Seq<u8>>,
    i: int,
)
    requires
        window(keys, ch, l, r, ids.len() as int, leaves),
        row_stored(ch, p),
        forall|i: int| 0 <= i < ids.len() ==> #[trigger] ids[i] != NULL_PAGE,
        0 <= i < ids.len(),
    ensures
        part_view(joined_views(keys, ch, l, r), ids, i).sound(),
{
    lemma_parts(keys, ch, l, r, ids, leaves);
    let v = joined_views(keys, ch, l, r);
    let n = ids.len() as int;
    assert((ch[l] is Leaf) == leaves);
    match v {
        NodeView::Leaf(e, next) => {
            lemma_last_next(keys, ch, l, r);
            assert(ch[r].stored(p));
            assert(ch[r].shape().sound());
            if i < n - 1 {
                assert(ids[i + 1] != NULL_PAGE);
            }
        },
        NodeView::Internal(k, c) => {
            let t = k.len() - (n - 1);
            lemma_begin(t, n, i);
            lemma_begin(t, n, i + 1);
            let a = begin(t, n, i) + i;
            let b = begin(t, n, i + 1) + i;
            lemma_kids_stored(ch, l, r, p);
            let kids = kid_row(ch, l, r);
            assert(kids[a].stored(p));
            assert(c.subrange(a, b + 1)[0] == kids[a].id());
        },
    }
}

/// The link of a window of leaves is that of its last leaf.
proof fn lemma_last_next(keys: Seq<Seq<u8>>, ch: Seq<PagedTree>, l: int, r: int)
    requires
        0 <= l <= r < ch.len(),
        alike(ch, true),
    ensures
        joined_views(keys, ch, l, r) is Leaf,
        joined_views(keys, ch, l, r)->Leaf_1 == ch[r].shape()->Leaf_1,
    decreases r - l,
{
    assert(ch[l] is Leaf && ch[r] is Leaf);
    if l < r {
        lemma_last_next(keys, ch, l, r - 1);
    }
}

/// The parts of a window are on their pages, and other pages are as they were.
proof fn lemma_parts_on_pages(
    keys: Seq<Seq<u8>>,
    ch: Seq<PagedTree>,
    l: int,
    r: int,
    ids: Seq<PageId>,
    leaves: bool,
    p: Map<PageId, Seq<u8>>,
    p1: Map<PageId, Seq<u8>>,
    q: Map<PageId, Seq<u8>>,
)
    requires
        window(keys, ch, l, r, ids.len() as int, leaves),
        window_ids(ch, l, r, ids, p),
        row_stored(ch, p),
        spares_window(ch, l, r, p, p1),
        q.dom() == p1.dom(),
        forall|i: int| 0 <= i < ids.len() ==> p1.contains_key(#[trigger] ids[i]) && ids[i] != NULL_PAGE,
        forall|i: int|
            0 <= i < ids.len() ==> q[#[trigger] ids[i]] == part_view(joined_views(keys, ch, l, r), ids, i).image()
                && part_view(joined_views(keys, ch, l, r), ids, i).packs(),
        forall|x: PageId| #[trigger] p1.contains_key(x) && !ids.contains(x) ==> q[x] == p1[x],
    ensures
        forall|i: int|
            0 <= i < ids.len() ==> (#[trigger] paged_parts(
                joined_views(keys, ch, l, r),
                window_kids(ch, l, r),
                ids,
            )[i]).on_page(q),
        spares_window(ch, l, r, p, q),
{
    let v = joined_views(keys, ch, l, r);
    let ps = paged_parts(v, window_kids(ch, l, r), ids);
    lemma_parts(keys, ch, l, r, ids, leaves);
    assert forall|i: int| 0 <= i < ids.len() implies (#[trigger] ps[i]).on_page(q) by {
        lemma_part_sound(keys, ch, l, r, ids, leaves, p, i);
        assert(ps[i].shape() == part_view(v, ids, i));
        assert(ps[i].id() == ids[i]);
        assert(p1.dom().contains(ids[i]));
        assert(q.dom().contains(ids[i]));
        lemma_written(ps[i], q);
    }
    assert forall|x: PageId| #[trigger] p.contains_key(x) && (forall|j: int| l <= j <= r ==> (
    #[trigger] ch[j]).id() != x) implies q.contains_key(x) && q[x] == p[x] by {
        assert(p1.contains_key(x) && p1[x] == p[x]);
        assert(p1.dom().contains(x));
        assert(q.dom().contains(x));
        if ids.contains(x) {
            let i = choose|i: int| 0 <= i < ids.len() && ids[i] == x;
            if i <= r - l {
                assert(ids[i] == ch[l + i].id());
            }
        }
    }
}

/// Once the parts of a window are on their pages, the row is rebuilt.
proof fn lemma_window_done(
    keys: Seq<Seq<u8>>,
    ch: Seq<PagedTree>,
    l: int,
    r: int,
    ids: Seq<PageId>,
    leaves: bool,
    p: Map<PageId, Seq<u8>>,
    p1: Map<PageId, Seq<u8>>,
    q: Map<PageId, Seq<u8>>,
)
    requires
        window(keys, ch, l, r, ids.len() as int, leaves),
        window_ids(ch, l, r, ids, p),
        apart(ch),
        row_stored(ch, p),
        leaves || (forall|i: int| 0 <= i < ch.len() ==> (#[trigger] ch[i]).kids().len() > 0),
        spares_window(ch, l, r, p, p1),
        q.dom() == p1.dom(),
        forall|i: int| 0 <= i < ids.len() ==> p1.contains_key(#[trigger] ids[i]) && ids[i] != NULL_PAGE,
        forall|i: int|
            0 <= i < ids.len() ==> q[#[trigger] ids[i]] == part_view(joined_views(keys, ch, l, r), ids, i).image()
                && part_view(joined_views(keys, ch, l, r), ids, i).packs(),
        forall|x: PageId| #[trigger] p1.contains_key(x) && !ids.contains(x) ==> q[x] == p1[x],
    ensures
        rebuilt(ch, dealt_row(keys, ch, l, r, ids), p, q),
{
    let d = dealt_row(keys, ch, l, r, ids);
    lemma_parts_on_pages(keys, ch, l, r, ids, leaves, p, p1, q);
    lemma_dealt_stored(keys, ch, l, r, ids, leaves, p, q);
    lemma_dealt_apart(keys, ch, l, r, ids, leaves, p);
    assert forall|next: Option<PageId>| #[trigger] row_linked(ch, next) implies row_linked(d, next) by {
        lemma_dealt_linked(keys, ch, l, r, ids, leaves, p, next);
    }
    lemma_dealt_first(keys, ch, l, r, ids, leaves, p);
    assert forall|x: PageId| #[trigger] p.contains_key(x) && !row_owns(ch, x) implies q.contains_key(x)
        && q[x] == p[x] by {
        assert forall|j: int| l <= j <= r implies (#[trigger] ch[j]).id() != x by {
            assert(ch[j].owns(ch[j].id()));
        }
    }
}

/// What stands on the pages of neighbours is what they hold.
proof fn lemma_joined_stored(
    keys: Seq<Seq<u8>>,
    ch: Seq<PagedTree>,
    p: Map<PageId, Seq<u8>>,
    l: int,
    r: int,
)
    requires
        row_stored(ch, p),
        forall|i: int| 0 <= i < ch.len() ==> neat(#[trigger] bare_row(ch)[i]),
        0 <= l <= r < ch.len(),
    ensures
        joined_pages(keys, row_ids(ch), p, l, r) == joined_views(keys, ch, l, r),
        page_load(row_ids(ch), p, l, r) == load(bare_row(ch), l, r),
    decreases r - l,
{
    let c = row_ids(ch);
    assert(c[r] == ch[r].id());
    assert(bare_row(ch)[r] == ch[r].bare());
    lemma_stored_node(ch[r], p);
    lemma_bare(ch[r]);
    assert(view_count(node_at(c, p, r)) == ch[r].bare().count());
    if l < r {
        lemma_joined_stored(keys, ch, p, l, r - 1);
    } else {
        assert(page_load(c, p, l, l - 1) == 0);
        assert(load(bare_row(ch), l, l - 1) == 0);
    }
}

/// The window of a stored node: neighbours, whose pages hold what the window holds.
proof fn lemma_window_pages(
    keys: Seq<Seq<u8>>,
    ch: Seq<PagedTree>,
    h: nat,
    lo: Option<Seq<u8>>,
    hi: Option<Seq<u8>>,
    p: Map<PageId, Seq<u8>>,
    l: int,
    r: int,
    n: int,
)
    requires
        sorted_tree(Tree::Internal(keys, bare_row(ch)), h, lo, hi),
        row_stored(ch, p),
        forall|i: int| 0 <= i < ch.len() ==> neat(#[trigger] bare_row(ch)[i]),
        apart(ch),
        0 <= l <= r < ch.len(),
        1 <= n,
    ensures
        neighbours(row_ids(ch), p, l, r),
        joined_pages(keys, row_ids(ch), p, l, r) == joined_views(keys, ch, l, r),
        page_load(row_ids(ch), p, l, r) == load(bare_row(ch), l, r),
        can_deal_view(joined_views(keys, ch, l, r), n) == can_deal(
            joined(keys, bare_row(ch), l, r),
            n,
        ),
        can_deal(joined(keys, bare_row(ch), l, r), n) ==> parts_hold(joined_views(keys, ch, l, r), n)
            == parts_go(joined(keys, bare_row(ch), l, r), n),
{
    let c = row_ids(ch);
    let leaves = h == 1;
    let m = joined(keys, bare_row(ch), l, r);
    let v = joined_views(keys, ch, l, r);
    lemma_alike(keys, ch, h, lo, hi);
    lemma_joined_stored(keys, ch, p, l, r);
    lemma_joined(keys, bare_row(ch), h, lo, hi, l, r);
    lemma_joined_pair(keys, ch, l, r, leaves);
    assert((ch[l] is Leaf) == leaves);
    assert(bare_row(ch)[l] == ch[l].bare());
    lemma_stored_node(ch[l], p);
    assert forall|i: int| l <= i <= r implies {
        &&& #[trigger] c[i] != NULL_PAGE
        &&& p.contains_key(c[i])
        &&& legible(p[c[i]])
        &&& dealable(node_at(c, p, i))
        &&& same_kind(node_at(c, p, l), node_at(c, p, i))
    } by {
        assert(c[i] == ch[i].id());
        assert((ch[i] is Leaf) == leaves);
        assert(bare_row(ch)[i] == ch[i].bare());
        lemma_stored_node(ch[i], p);
        assert(ch[i].shape().sound());
        if !leaves {
            let kids = ch[i].kids();
            assert forall|j: int| 0 <= j < kids.len() implies #[trigger] row_ids(kids)[j] != NULL_PAGE by {
                assert(kids[j].stored(p));
            }
        }
    }
    assert forall|i: int, j: int| l <= i < j <= r implies #[trigger] c[i] != #[trigger] c[j] by {
        assert(ch[i].owns(c[i]));
        assert(ch[j].owns(c[j]));
    }
    if can_deal(m, n) {
        let w = Seq::new(n as nat, |j: int| 0u64);
        assert(window(keys, ch, l, r, n, leaves));
        assert forall|i: int| 0 <= i < n implies part_fits(v, n, i) == roomy(#[trigger] part(m, n, i))
            && lone_part(v, n, i).packs() == packed(part(m, n, i)) by {
            lemma_part_roomy(keys, ch, l, r, w, leaves, i);
        }
        if parts_hold(v, n) {
            assert forall|i: int| 0 <= i < n implies packed(#[trigger] part(m, n, i)) && (m is Leaf && i
                > 0 ==> roomy(part(m, n, i))) by {
                assert(lone_part(v, n, i).packs());
            }
        }
        if parts_go(m, n) {
            assert forall|i: int| 0 <= i < n implies (#[trigger] lone_part(v, n, i)).packs() && (v is Leaf
                && i > 0 ==> part_fits(v, n, i)) by {
                assert(packed(part(m, n, i)));
            }
        }
    }
}

/// Once the parts of a window are on their pages, the row is that of a rebalanced node.
proof fn lemma_window_dealt(
    keys: Seq<Seq<u8>>,
    ch: Seq<PagedTree>,
    h: nat,
    lo: Option<Seq<u8>>,
    hi: Option<Seq<u8>>,
    p: Map<PageId, Seq<u8>>,
    q: Map<PageId, Seq<u8>>,
    l: int,
    r: int,
    n: int,
    fresh: PageId,
)
    requires
        sorted_tree(Tree::Internal(keys, bare_row(ch)), h, lo, hi),
        row_stored(ch, p),
        forall|i: int| 0 <= i < ch.len() ==> neat(#[trigger] bare_row(ch)[i]),
        apart(ch),
        0 <= l <= r < ch.len(),
        1 <= n <= r - l + 2,
        r - l <= n,
        can_deal(joined(keys, bare_row(ch), l, r), n),
        parts_hold(joined_views(keys, ch, l, r), n),
        parts_written(row_ids(ch), p, q, l, r, n, fresh, joined_views(keys, ch, l, r)),
    ensures
        ({
            let ids = part_ids(row_ids(ch), l, r, n, fresh);
            let ch2 = dealt_row(keys, ch, l, r, ids);
            let m = joined(keys, bare_row(ch), l, r);
            &&& bare_row(ch2) == bare_row(ch).take(l) + parts(m, n) + bare_row(ch).skip(r + 1)
            &&& row_ids(ch2) == row_ids(ch).take(l) + ids + row_ids(ch).skip(r + 1)
            &&& rebuilt(ch, ch2, p, q)
            &&& Seq::new((n - 1) as nat, |i: int| fence_view(joined_views(keys, ch, l, r), n, i))
                == part_fences(m, n)
        }),
{
    let c = row_ids(ch);
    let leaves = h == 1;
    let v = joined_views(keys, ch, l, r);
    let ids = part_ids(c, l, r, n, fresh);
    lemma_window_pages(keys, ch, h, lo, hi, p, l, r, n);
    lemma_alike(keys, ch, h, lo, hi);
    lemma_joined(keys, bare_row(ch), h, lo, hi, l, r);
    assert(window(keys, ch, l, r, n, leaves));
    lemma_parts(keys, ch, l, r, ids, leaves);
    assert(window_ids(ch, l, r, ids, p)) by {
        assert forall|i: int| 0 <= i < ids.len() && i <= r - l implies #[trigger] ids[i] == ch[l
            + i].id() by {
            assert(c[l + i] == ch[l + i].id());
        }
    }
    assert forall|i: int| 0 <= i < n implies q.contains_key(#[trigger] ids[i]) && ids[i] != NULL_PAGE
        && part_view(v, ids, i).packs() by {
        lemma_parts_fit(v, ids, i);
        assert(lone_part(v, n, i).packs());
        assert(part_pages(p.dom(), c, l, r, n, fresh).contains(ids[i])) by {
            if i <= r - l {
                assert(c[l + i] != NULL_PAGE);
                if n < r - l + 1 {
                    assert(c[l + i] != c[r]);
                }
            }
        }
        if i <= r - l {
            assert(c[l + i] != NULL_PAGE);
        }
    }
    assert forall|x: PageId| #[trigger] p.contains_key(x) && (forall|j: int| l <= j <= r ==> (
    #[trigger] ch[j]).id() != x) implies q.contains_key(x) && q[x] == p[x] by {
        assert forall|k: int| l <= k <= r implies #[trigger] c[k] != x by {
            assert(ch[k].id() != x);
        }
    }
    lemma_window_done(keys, ch, l, r, ids, leaves, p, q, q);
    assert forall|i: int| 0 <= i < n - 1 implies #[trigger] fence_view(v, n, i) == part_fences(
        joined(keys, bare_row(ch), l, r),
        n,
    )[i] by {
    }
    assert(Seq::new((n - 1) as nat, |i: int| fence_view(v, n, i)) =~= part_fences(
        joined(keys, bare_row(ch), l, r),
        n,
    ));
}

/// Whether a part fits on its page.
proof fn lemma_part_roomy(
    keys: Seq<Seq<u8>>,
    ch: Seq<PagedTree>,
    l: int,
    r: int,
    ids: Seq<PageId>,
    leaves: bool,
    i: int,
)
    requires
        window(keys, ch, l, r, ids.len() as int, leaves),
        0 <= i < ids.len(),
    ensures
        roomy(part(joined(keys, bare_row(ch), l, r), ids.len() as int, i)) == part_view(
            joined_views(keys, ch, l, r),
            ids,
            i,
        ).fits(),
        packed(part(joined(keys, bare_row(ch), l, r), ids.len() as int, i)) == part_view(
            joined_views(keys, ch, l, r),
            ids,
            i,
        ).packs(),
{
    lemma_parts(keys, ch, l, r, ids, leaves);
    lemma_roomy(
        part_view(joined_views(keys, ch, l, r), ids, i),
        part(joined(keys, bare_row(ch), l, r), ids.len() as int, i),
    );
}

} // verus!
