//! Reading a page of cells without unpacking it.
//!
//! A page starts with its type (one byte), the number of its cells (two bytes) and the
//! lowest byte that a cell takes up (two bytes), then a page number (eight bytes) and
//! three bytes that are not in use. From byte 16 on follow the slots, two bytes each: where the
//! cell begins. A cell of a leaf is the length of its key, the length of its value, the
//! key and the value; a cell of an inner node is the length of its key, the key and the
//! page number of the child to the right of it. Numbers have their low byte first.
use crate::bytes::{bytes_le, bytes_lt, compare, lemma_bytes_order, rank_of, Rank};
use crate::store::{PAGE_SIZE, PageId};
use vstd::bytes::{
    spec_u16_from_le_bytes, spec_u64_from_le_bytes, u16_from_le_bytes, u64_from_le_bytes,
};
use vstd::prelude::*;
use vstd::slice::slice_subrange;

verus! {

/// The first slot.
pub const SLOTS: usize = 16;

/// The two-byte number at `at`.
pub open spec fn u16_at(p: Seq<u8>, at: int) -> u16 {
    spec_u16_from_le_bytes(p.subrange(at, at + 2))
}

/// The eight-byte number at `at`.
pub open spec fn u64_at(p: Seq<u8>, at: int) -> u64 {
    spec_u64_from_le_bytes(p.subrange(at, at + 8))
}

/// How many cells a page says that it has.
pub open spec fn count_of(p: Seq<u8>) -> u16 {
    u16_at(p, 1)
}

/// The page number in the head of a page.
pub open spec fn link_of(p: Seq<u8>) -> u64 {
    u64_at(p, 5)
}

/// Where cell `i` begins.
pub open spec fn slot_of(p: Seq<u8>, i: int) -> u16 {
    u16_at(p, SLOTS + 2 * i)
}

/// The length of the key of a cell at `at`.
pub open spec fn key_len(p: Seq<u8>, at: int) -> u16 {
    u16_at(p, at)
}

/// The length of the value of a leaf's cell at `at`.
pub open spec fn value_len(p: Seq<u8>, at: int) -> u16 {
    u16_at(p, at + 2)
}

pub open spec fn leaf_key(p: Seq<u8>, i: int) -> Seq<u8> {
    let at = slot_of(p, i) as int;
    p.subrange(at + 4, at + 4 + key_len(p, at))
}

pub open spec fn leaf_value(p: Seq<u8>, i: int) -> Seq<u8> {
    let at = slot_of(p, i) as int;
    let k = key_len(p, at) as int;
    p.subrange(at + 4 + k, at + 4 + k + value_len(p, at))
}

pub open spec fn internal_key(p: Seq<u8>, i: int) -> Seq<u8> {
    let at = slot_of(p, i) as int;
    p.subrange(at + 2, at + 2 + key_len(p, at))
}

pub open spec fn internal_child(p: Seq<u8>, i: int) -> PageId {
    let at = slot_of(p, i) as int;
    u64_at(p, at + 2 + key_len(p, at))
}

/// The slot of cell `i` lies on the page.
pub open spec fn slot_ok(i: int) -> bool {
    0 <= i && SLOTS + 2 * i + 2 <= PAGE_SIZE
}

/// The key of a leaf's cell lies on the page.
pub open spec fn leaf_key_ok(p: Seq<u8>, i: int) -> bool {
    let at = slot_of(p, i) as int;
    slot_ok(i) && at + 4 + key_len(p, at) <= PAGE_SIZE
}

/// A leaf's cell lies on the page.
pub open spec fn leaf_cell_ok(p: Seq<u8>, i: int) -> bool {
    let at = slot_of(p, i) as int;
    leaf_key_ok(p, i) && at + 4 + key_len(p, at) + value_len(p, at) <= PAGE_SIZE
}

/// The key of an inner node's cell lies on the page.
pub open spec fn internal_key_ok(p: Seq<u8>, i: int) -> bool {
    let at = slot_of(p, i) as int;
    slot_ok(i) && at + 2 + key_len(p, at) <= PAGE_SIZE
}

/// An inner node's cell lies on the page.
pub open spec fn internal_cell_ok(p: Seq<u8>, i: int) -> bool {
    let at = slot_of(p, i) as int;
    slot_ok(i) && at + 10 + key_len(p, at) <= PAGE_SIZE
}

/// All cells of a leaf lie on the page.
pub open spec fn leaf_ok(p: Seq<u8>) -> bool {
    forall|i: int| 0 <= i < count_of(p) ==> #[trigger] leaf_cell_ok(p, i)
}

/// All cells of an inner node lie on the page.
pub open spec fn internal_ok(p: Seq<u8>) -> bool {
    forall|i: int| 0 <= i < count_of(p) ==> #[trigger] internal_cell_ok(p, i)
}

/// The child to the left of key `i`, or to the right of the last key.
pub open spec fn child_of(p: Seq<u8>, i: int) -> PageId {
    if i == 0 {
        link_of(p)
    } else {
        internal_child(p, i - 1)
    }
}

/// Where a lookup of `key` among the cells `l` to `r` of a leaf ends, each step halving what is
/// left.
pub open spec fn leaf_halved(p: Seq<u8>, key: Seq<u8>, l: int, r: int) -> Result<int, int>
    decreases r - l,
{
    if l >= r {
        Err(l)
    } else {
        let mid = l + (r - l) / 2;
        match rank_of(leaf_key(p, mid), key) {
            Rank::Below => leaf_halved(p, key, mid + 1, r),
            Rank::Same => Ok(mid),
            Rank::Above => leaf_halved(p, key, l, mid),
        }
    }
}

/// Where a lookup of the first of the cells `l` to `r` of an inner node that is not below `key`
/// ends, each step halving what is left.
pub open spec fn internal_halved(p: Seq<u8>, key: Seq<u8>, l: int, r: int) -> int
    decreases r - l,
{
    if l >= r {
        l
    } else {
        let mid = l + (r - l) / 2;
        if rank_of(internal_key(p, mid), key) == Rank::Below {
            internal_halved(p, key, mid + 1, r)
        } else {
            internal_halved(p, key, l, mid)
        }
    }
}

/// A page that is read in place.
pub struct SlottedPage<'a>(pub &'a [u8; PAGE_SIZE]);

impl<'a> SlottedPage<'a> {
    pub open spec fn view(&self) -> Seq<u8> {
        self.0@
    }

    fn u16_at(&self, at: usize) -> (r: u16)
        requires
            at + 2 <= PAGE_SIZE,
        ensures
            r == u16_at(self@, at as int),
    {
        u16_from_le_bytes(slice_subrange(self.0.as_slice(), at, at + 2))
    }

    fn u64_at(&self, at: usize) -> (r: u64)
        requires
            at + 8 <= PAGE_SIZE,
        ensures
            r == u64_at(self@, at as int),
    {
        u64_from_le_bytes(slice_subrange(self.0.as_slice(), at, at + 8))
    }

    pub fn is_leaf(&self) -> (r: bool)
        ensures
            r == (self@[0] == 1),
    {
        self.0[0] == 1
    }

    pub fn cell_count(&self) -> (r: usize)
        ensures
            r == count_of(self@),
    {
        self.u16_at(1) as usize
    }

    pub fn next_leaf(&self) -> (r: PageId)
        ensures
            r == link_of(self@),
    {
        self.u64_at(5)
    }

    pub fn leftmost_child(&self) -> (r: PageId)
        ensures
            r == link_of(self@),
    {
        self.u64_at(5)
    }

    fn slot_offset(&self, idx: usize) -> (r: usize)
        requires
            slot_ok(idx as int),
        ensures
            r == slot_of(self@, idx as int),
    {
        let b = SLOTS + idx * 2;
        self.u16_at(b) as usize
    }

    pub fn get_leaf_key(&self, idx: usize) -> (r: &[u8])
        requires
            leaf_key_ok(self@, idx as int),
        ensures
            r@ == leaf_key(self@, idx as int),
    {
        let off = self.slot_offset(idx);
        let kl = self.u16_at(off) as usize;
        slice_subrange(self.0.as_slice(), off + 4, off + 4 + kl)
    }

    pub fn get_leaf_value(&self, idx: usize) -> (r: &[u8])
        requires
            leaf_cell_ok(self@, idx as int),
        ensures
            r@ == leaf_value(self@, idx as int),
    {
        let off = self.slot_offset(idx);
        let kl = self.u16_at(off) as usize;
        let vl = self.u16_at(off + 2) as usize;
        slice_subrange(self.0.as_slice(), off + 4 + kl, off + 4 + kl + vl)
    }

    pub fn get_internal_key(&self, idx: usize) -> (r: &[u8])
        requires
            internal_key_ok(self@, idx as int),
        ensures
            r@ == internal_key(self@, idx as int),
    {
        let off = self.slot_offset(idx);
        let kl = self.u16_at(off) as usize;
        slice_subrange(self.0.as_slice(), off + 2, off + 2 + kl)
    }

    pub fn get_internal_child(&self, idx: usize) -> (r: PageId)
        requires
            internal_cell_ok(self@, idx as int),
        ensures
            r == internal_child(self@, idx as int),
    {
        let off = self.slot_offset(idx);
        let kl = self.u16_at(off) as usize;
        self.u64_at(off + 2 + kl)
    }

    /// Whether all cells of a leaf lie on the page.
    pub fn leaf_cells_ok(&self) -> (r: bool)
        ensures
            r == leaf_ok(self@),
    {
        let n = self.cell_count();
        let mut i: usize = 0;
        while i < n
            invariant
                i <= n,
                n == count_of(self@),
                forall|j: int| 0 <= j < i ==> #[trigger] leaf_cell_ok(self@, j),
            decreases n - i,
        {
            let ok = if SLOTS + 2 * i + 2 <= PAGE_SIZE {
                let off = self.slot_offset(i);
                if off + 4 <= PAGE_SIZE {
                    let kl = self.u16_at(off) as usize;
                    let vl = self.u16_at(off + 2) as usize;
                    off + 4 + kl + vl <= PAGE_SIZE
                } else {
                    false
                }
            } else {
                false
            };
            assert(ok == leaf_cell_ok(self@, i as int));
            if !ok {
                return false;
            }
            i += 1;
        }
        true
    }

    /// Whether all cells of an inner node lie on the page.
    pub fn internal_cells_ok(&self) -> (r: bool)
        ensures
            r == internal_ok(self@),
    {
        let n = self.cell_count();
        let mut i: usize = 0;
        while i < n
            invariant
                i <= n,
                n == count_of(self@),
                forall|j: int| 0 <= j < i ==> #[trigger] internal_cell_ok(self@, j),
            decreases n - i,
        {
            let ok = if SLOTS + 2 * i + 2 <= PAGE_SIZE {
                let off = self.slot_offset(i);
                if off + 2 <= PAGE_SIZE {
                    let kl = self.u16_at(off) as usize;
                    off + 10 + kl <= PAGE_SIZE
                } else {
                    false
                }
            } else {
                false
            };
            assert(ok == internal_cell_ok(self@, i as int));
            if !ok {
                return false;
            }
            i += 1;
        }
        true
    }

    /// Looks `key` up among the keys of a leaf by halving. On a page whose keys rise this
    /// is the place of `key`, or the place where it would have to stand.
    pub fn leaf_find(&self, key: &[u8]) -> (r: Result<usize, usize>)
        requires
            forall|i: int| 0 <= i < count_of(self@) ==> #[trigger] leaf_key_ok(self@, i),
        ensures
            match r {
                Ok(i) => i < count_of(self@) && leaf_key(self@, i as int) == key@,
                Err(i) => {
                    &&& i <= count_of(self@)
                    &&& i > 0 ==> bytes_lt(leaf_key(self@, i - 1), key@)
                    &&& i < count_of(self@) ==> bytes_lt(key@, leaf_key(self@, i as int))
                },
            },
            match r {
                Ok(i) => leaf_halved(self@, key@, 0, count_of(self@) as int) == Ok::<int, int>(i as int),
                Err(i) => leaf_halved(self@, key@, 0, count_of(self@) as int) == Err::<int, int>(
                    i as int,
                ),
            },
    {
        let n = self.cell_count();
        let mut left: usize = 0;
        let mut right = n;
        while left < right
            invariant
                left <= right <= n,
                n == count_of(self@),
                forall|i: int| 0 <= i < count_of(self@) ==> #[trigger] leaf_key_ok(self@, i),
                left > 0 ==> bytes_lt(leaf_key(self@, left - 1), key@),
                right < n ==> bytes_lt(key@, leaf_key(self@, right as int)),
                leaf_halved(self@, key@, left as int, right as int) == leaf_halved(
                    self@,
                    key@,
                    0,
                    n as int,
                ),
            decreases right - left,
        {
            let mid = left + (right - left) / 2;
            assert(leaf_key_ok(self@, mid as int));
            match compare(self.get_leaf_key(mid), key) {
                Rank::Below => {
                    left = mid + 1;
                },
                Rank::Above => {
                    proof {
                        lemma_bytes_order();
                        assert(bytes_lt(key@, leaf_key(self@, mid as int)) || bytes_lt(
                            leaf_key(self@, mid as int),
                            key@,
                        ) || key@ == leaf_key(self@, mid as int));
                    }
                    right = mid;
                },
                Rank::Same => {
                    return Ok(mid);
                },
            }
        }
        Err(left)
    }

    /// The child of an inner node that leads to `key`: the one to the left of the first key
    /// that is not below `key`.
    pub fn internal_route(&self, key: &[u8]) -> (r: (usize, PageId))
        requires
            internal_ok(self@),
        ensures
            r.0 <= count_of(self@),
            r.0 > 0 ==> bytes_lt(internal_key(self@, r.0 - 1), key@),
            r.0 < count_of(self@) ==> bytes_le(key@, internal_key(self@, r.0 as int)),
            r.0 == internal_halved(self@, key@, 0, count_of(self@) as int),
            r.1 == child_of(self@, r.0 as int),
    {
        let n = self.cell_count();
        let mut left: usize = 0;
        let mut right = n;
        while left < right
            invariant
                left <= right <= n,
                n == count_of(self@),
                internal_ok(self@),
                left > 0 ==> bytes_lt(internal_key(self@, left - 1), key@),
                right < n ==> bytes_le(key@, internal_key(self@, right as int)),
                internal_halved(self@, key@, left as int, right as int) == internal_halved(
                    self@,
                    key@,
                    0,
                    n as int,
                ),
            decreases right - left,
        {
            let mid = left + (right - left) / 2;
            proof {
                lemma_bytes_order();
                assert(internal_cell_ok(self@, mid as int));
            }
            match compare(self.get_internal_key(mid), key) {
                Rank::Below => {
                    left = mid + 1;
                },
                _ => {
                    right = mid;
                },
            }
        }
        let child_id = if left == 0 {
            self.leftmost_child()
        } else {
            assert(internal_cell_ok(self@, left - 1));
            self.get_internal_child(left - 1)
        };
        (left, child_id)
    }
}

} // verus!
