//! A pool of frames in front of a medium.
//!
//! A page that is asked for is brought into a frame and stays there while a guard is held on
//! it. When a page is asked for and no frame is free, a frame that nobody holds makes room;
//! what was written to it goes back to the medium first.
use crate::clock::{ClockReplacer, Dial};
use crate::laws::law_one_victim;
use crate::medium::{lemma_tally_push, tally, Asked, Medium};
use crate::store::{NULL_PAGE, Page, PageId};
use std::collections::HashMap;
use vstd::prelude::*;

verus! {

struct FrameMeta {
    page_id: Option<PageId>,
    dirty: bool,
}

pub struct BufferPoolManager<M: Medium> {
    medium: M,
    data: Vec<Page>,
    meta: Vec<FrameMeta>,
    pin_counts: Vec<u32>,
    page_table: HashMap<PageId, usize>,
    free_list: Vec<usize>,
    replacer: ClockReplacer,
    touched: Ghost<Set<int>>,
    strange: Ghost<Set<PageId>>,
}

#[derive(Debug)]
pub enum BpmError<E> {
    BufferFull,
    Medium(E),
}

/// A page that is held to be read.
pub struct ReadGuard {
    frame_id: usize,
}

/// A page that is held to be written.
pub struct WriteGuard {
    frame_id: usize,
}

impl ReadGuard {
    pub closed spec fn frame(&self) -> int {
        self.frame_id as int
    }
}

impl WriteGuard {
    pub closed spec fn frame(&self) -> int {
        self.frame_id as int
    }
}

pub open spec fn sum(s: Seq<u32>) -> nat
    decreases s.len(),
{
    if s.len() == 0 {
        0
    } else {
        sum(s.drop_last()) + s.last() as nat
    }
}

pub proof fn lemma_sum_update(s: Seq<u32>, i: int, v: u32)
    requires
        0 <= i < s.len(),
    ensures
        sum(s.update(i, v)) == sum(s) - s[i] + v,
    decreases s.len(),
{
    let t = s.update(i, v);
    if i == s.len() - 1 {
        assert(t.drop_last() =~= s.drop_last());
    } else {
        lemma_sum_update(s.drop_last(), i, v);
        assert(t.drop_last() =~= s.drop_last().update(i, v));
    }
}

pub proof fn lemma_sum_bound(s: Seq<u32>, i: int)
    requires
        0 <= i < s.len(),
    ensures
        s[i] <= sum(s),
    decreases s.len(),
{
    if i < s.len() - 1 {
        lemma_sum_bound(s.drop_last(), i);
    }
}

proof fn lemma_sum_all(s: Seq<u32>)
    requires
        forall|i: int| 0 <= i < s.len() ==> #[trigger] s[i] > 0,
    ensures
        sum(s) >= s.len(),
    decreases s.len(),
{
    if s.len() > 0 {
        assert(s[s.len() - 1] > 0);
        assert forall|i: int| 0 <= i < s.drop_last().len() implies #[trigger] s.drop_last()[i] > 0 by {
            assert(s[i] > 0);
        }
        lemma_sum_all(s.drop_last());
    }
}

proof fn lemma_sum_zero(s: Seq<u32>)
    requires
        forall|i: int| 0 <= i < s.len() ==> #[trigger] s[i] == 0,
    ensures
        sum(s) == 0,
    decreases s.len(),
{
    if s.len() > 0 {
        assert(s[s.len() - 1] == 0);
        assert forall|i: int| 0 <= i < s.drop_last().len() implies #[trigger] s.drop_last()[i] == 0 by {
            assert(s[i] == 0);
        }
        lemma_sum_zero(s.drop_last());
    }
}

impl<M: Medium> BufferPoolManager<M> {
    pub closed spec fn frames(&self) -> nat {
        self.data@.len()
    }

    /// How many guards are held on each frame.
    pub closed spec fn pins(&self) -> Seq<u32> {
        self.pin_counts@
    }

    /// The page in frame `f`.
    pub closed spec fn at(&self, f: int) -> Option<PageId> {
        match self.meta@[f].page_id {
            Some(id) => if self.strange@.contains(id) {
                None
            } else {
                Some(id)
            },
            None => None,
        }
    }

    /// The page is in a frame.
    pub open spec fn at_hand(&self, id: PageId) -> bool {
        exists|f: int| 0 <= f < self.frames() && #[trigger] self.at(f) == Some(id)
    }

    /// The bytes in frame `f`.
    pub closed spec fn bytes_at(&self, f: int) -> Seq<u8> {
        self.data@[f]@
    }

    /// The frames that a write guard was given out for since they were last released from one.
    pub closed spec fn touched(&self) -> Set<int> {
        self.touched@
    }

    /// How many guards are held.
    pub open spec fn held(&self) -> nat {
        sum(self.pins())
    }

    pub closed spec fn reliable(&self) -> bool {
        self.medium.reliable()
    }

    pub closed spec fn room(&self) -> nat {
        self.medium.room()
    }

    /// The medium remembers what it was asked.
    pub closed spec fn records(&self) -> bool {
        self.medium.records()
    }

    /// What the medium was asked, the latest last.
    pub closed spec fn asked(&self) -> Seq<Asked<M::Error>> {
        self.medium.asked()
    }

    /// The page that the medium hands out after `n` others.
    pub closed spec fn upcoming(&self, n: nat) -> PageId {
        self.medium.upcoming(n)
    }

    /// The medium was asked nothing since `o`.
    pub open spec fn idle_medium(&self, o: &Self) -> bool {
        &&& self.records() == o.records()
        &&& self.asked() == o.asked()
        &&& forall|n: nat| #[trigger] self.upcoming(n) == o.upcoming(n)
    }

    /// The error is that of the last request to the medium.
    pub open spec fn blames(&self, e: M::Error) -> bool {
        &&& self.asked().len() > 0
        &&& match self.asked().last() {
            Asked::Read(_, r) => r == Err::<Seq<u8>, M::Error>(e),
            Asked::Write(_, _, r) => r == Some(e),
            Asked::Allocate(r) => r == Err::<PageId, M::Error>(e),
            Asked::Free(_, r) => r == Some(e),
        }
    }

    /// The last request to the medium has failed.
    pub open spec fn failing(&self) -> bool {
        exists|e: M::Error| #[trigger] self.blames(e)
    }

    /// Frame `f` was written to, and the medium has not got it back since.
    pub closed spec fn dirty(&self, f: int) -> bool {
        self.meta@[f].dirty
    }

    /// The frame that makes room for a page: one that has held no page yet, or else the victim of
    /// the replacer.
    pub open spec fn giver(&self) -> int {
        if self.unused().len() > 0 {
            self.unused().last()
        } else {
            choose|f: int| self.dial().takes(f)
        }
    }

    /// The marks and the hand of the replacer.
    pub closed spec fn dial(&self) -> Dial {
        self.replacer@
    }

    /// The frames that have held no page yet. The last one is taken first.
    pub closed spec fn unused(&self) -> Seq<int> {
        Seq::new(self.free_list@.len(), |i: int| self.free_list@[i] as int)
    }

    /// The dial when a frame has made room.
    pub open spec fn giver_dial(&self) -> Dial {
        if self.unused().len() > 0 {
            self.dial()
        } else {
            self.dial().taken(self.giver())
        }
    }

    /// The frames that have held no page, when one has made room.
    pub open spec fn left_unused(&self) -> Seq<int> {
        if self.unused().len() > 0 {
            self.unused().drop_last()
        } else {
            self.unused()
        }
    }

    /// The frame that is set aside for a page.
    pub closed spec fn place(&self, id: PageId) -> int {
        self.page_table@[id] as int
    }

    /// Marks, hand and unused frames of the replacer are as they were.
    pub open spec fn same_turn(&self, o: &Self) -> bool {
        self.dial() == o.dial() && self.unused() == o.unused()
    }

    /// The same frames are set aside for the same pages.
    pub open spec fn same_table(&self, o: &Self) -> bool {
        &&& forall|j: PageId| #[trigger] self.tabled(j) == o.tabled(j)
        &&& forall|j: PageId| #[trigger] self.stale(j) == o.stale(j)
        &&& forall|j: PageId| o.tabled(j) ==> #[trigger] self.place(j) == o.place(j)
    }

    /// What a frame that makes room asks of the medium: to keep what was written to it.
    pub open spec fn write_back(&self, e: Option<M::Error>) -> Seq<Asked<M::Error>> {
        let f = self.giver();
        if self.dirty(f) {
            seq![Asked::Write(self.at(f)->0, self.bytes_at(f), e)]
        } else {
            Seq::empty()
        }
    }

    /// All frames hold what they held in `o`.
    pub open spec fn same_frames(&self, o: &Self) -> bool {
        &&& forall|g: int| #![trigger self.at(g)] 0 <= g < o.frames() ==> self.at(g) == o.at(g)
        &&& forall|g: int|
            #![trigger self.bytes_at(g)]
            0 <= g < o.frames() ==> self.bytes_at(g) == o.bytes_at(g)
        &&& forall|g: int| 0 <= g < o.frames() ==> #[trigger] self.dirty(g) == o.dirty(g)
    }

    /// All frames but the one that makes room in `o` hold what they held.
    pub open spec fn same_others(&self, o: &Self) -> bool {
        &&& forall|g: int|
            #![trigger self.at(g)]
            0 <= g < o.frames() && g != o.giver() ==> self.at(g) == o.at(g)
        &&& forall|g: int|
            #![trigger self.bytes_at(g)]
            0 <= g < o.frames() && g != o.giver() ==> self.bytes_at(g) == o.bytes_at(g)
        &&& forall|g: int|
            0 <= g < o.frames() && g != o.giver() ==> #[trigger] self.dirty(g) == o.dirty(g)
    }

    /// The frames that are set aside for pages other than `id` are still set aside for them.
    pub open spec fn same_places(&self, o: &Self, id: PageId) -> bool {
        forall|j: PageId| j != id && #[trigger] self.tabled(j) ==> o.tabled(j) && self.place(j) == o.place(j)
    }

    /// Page `id` is in the frame `f` that made room in `o`, read from the medium after what was in
    /// that frame was kept. The page that was there is in no frame. What a medium gives for a page
    /// that it has not is no page.
    pub open spec fn loaded(&self, o: &Self, id: PageId, f: int) -> bool {
        &&& f == o.giver()
        &&& 0 <= f < o.frames()
        &&& o.pins()[f] == 0
        &&& self.at(f) == if o.pages().contains_key(id) {
            Some(id)
        } else {
            None
        }
        &&& !self.dirty(f)
        &&& self.tabled(id)
        &&& self.place(id) == f
        &&& self.same_places(o, id)
        &&& self.dial() == o.giver_dial().pin(f)
        &&& self.unused() == o.left_unused()
        &&& self.same_others(o)
        &&& o.at(f) matches Some(q) ==> q != id && !self.at_hand(q) && !self.tabled(q)
        &&& o.records() ==> self.asked() == o.asked() + o.write_back(None) + seq![
            Asked::Read(id, Ok(self.bytes_at(f))),
        ]
    }

    /// What was in the frame that has to make room could not be kept, for the reason `e`: it is
    /// still there, and page `id` was not asked for.
    pub open spec fn unsaved(&self, o: &Self, id: PageId, e: M::Error) -> bool {
        &&& o.dirty(o.giver())
        &&& self.same_frames(o)
        &&& !self.tabled(id)
        &&& self.same_table(o)
        &&& self.dial() == o.giver_dial()
        &&& self.unused() == o.unused()
        &&& o.records() ==> self.asked() == o.asked() + o.write_back(Some(e))
    }

    /// The medium did not give page `id`, for the reason `e`: the frame that made room for it
    /// holds no page and is set aside for it, with the bytes that were in it.
    pub open spec fn unread(&self, o: &Self, id: PageId, e: M::Error) -> bool {
        &&& self.at(o.giver()) is None
        &&& !self.dirty(o.giver())
        &&& self.same_others(o)
        &&& self.tabled(id)
        &&& self.place(id) == o.giver()
        &&& self.same_places(o, id)
        &&& self.bytes_at(o.giver()) == o.bytes_at(o.giver())
        &&& self.dial() == o.giver_dial()
        &&& self.unused() == o.left_unused()
        &&& o.records() ==> self.asked() == o.asked() + o.write_back(None) + seq![
            Asked::Read(id, Err(e)),
        ]
    }

    /// How frames and medium fare when page `id` is asked for: `r` is the frame that it is in, or
    /// why it is in none.
    pub open spec fn fetched(&self, o: &Self, id: PageId, r: Result<int, BpmError<M::Error>>) -> bool {
        &&& self.records() == o.records()
        &&& forall|n: nat| #[trigger] self.upcoming(n) == o.upcoming(n)
        &&& o.records() ==> tally(self.asked()) == tally(o.asked())
        &&& if o.tabled(id) || o.full() {
            &&& self.same_frames(o)
            &&& self.asked() == o.asked()
            &&& self.same_table(o)
            &&& self.unused() == o.unused()
            &&& if o.tabled(id) {
                r == Ok::<int, BpmError<M::Error>>(o.place(id)) && self.dial() == o.dial().pin(o.place(id))
            } else {
                self.dial() == o.dial()
            }
        } else {
            match r {
                Ok(f) => self.loaded(o, id, f),
                Err(BpmError::BufferFull) => false,
                Err(BpmError::Medium(e)) => self.unsaved(o, id, e) || self.unread(o, id, e),
            }
        }
    }

    /// Page `id` was brought in and let go of, or it could not be brought in. Nothing else was asked
    /// for since `o`.
    pub open spec fn visited(&self, o: &Self, id: PageId) -> bool {
        ||| exists|q: Self, f: int|
            #![trigger q.fetched(o, id, Ok(f)), self.let_go(&q, f)]
            q.fetched(o, id, Ok(f)) && self.let_go(&q, f) && self.dirty(f) == q.dirty(f)
        ||| exists|e: BpmError<M::Error>| #[trigger] self.fetched(o, id, Err(e))
    }

    /// The pages were brought in and let go of one after the other, and nothing else was asked for
    /// since `o`.
    pub open spec fn toured(&self, o: &Self, ids: Seq<PageId>) -> bool
        decreases ids.len(),
    {
        if ids.len() == 0 {
            *self == *o
        } else {
            exists|mid: Self|
                mid.toured(o, ids.drop_last()) && #[trigger] self.visited(&mid, ids.last())
        }
    }

    pub proof fn lemma_toured(&self, mid: &Self, o: &Self, ids: Seq<PageId>, id: PageId)
        requires
            mid.toured(o, ids),
            self.visited(mid, id),
        ensures
            self.toured(o, ids.push(id)),
    {
        let all = ids.push(id);
        assert(all.drop_last() =~= ids);
        assert(all.last() == id);
        let m = *mid;
        assert(m.toured(o, all.drop_last()) && self.visited(&m, all.last()));
    }

    /// The pages of the medium, with what was written to them in the pool.
    pub closed spec fn pages(&self) -> Map<PageId, Seq<u8>> {
        Map::new(
            |id: PageId| self.medium.pages().contains_key(id),
            |id: PageId|
                if self.cached(id) {
                    self.data@[self.page_table@[id] as int]@
                } else {
                    self.medium.pages()[id]
                },
        )
    }

    closed spec fn cached(&self, id: PageId) -> bool {
        self.page_table@.contains_key(id) && self.at(self.page_table@[id] as int) == Some(id)
    }

    /// Bringing the page in has failed, or the medium gave something for it though it has no such
    /// page, and it was not given back since: a frame is set aside for it that holds something
    /// else.
    pub closed spec fn stale(&self, id: PageId) -> bool {
        self.page_table@.contains_key(id) && !self.cached(id)
    }

    /// No request to the medium has failed: every frame that nobody holds can make room.
    pub closed spec fn whole(&self) -> bool {
        &&& forall|id: PageId| #[trigger] self.page_table@.contains_key(id) ==> self.cached(id)
        &&& forall|f: int|
            0 <= f < self.data@.len() && #[trigger] self.replacer@.pinned[f] ==> self.pin_counts@[f] > 0
    }

    /// There is no frame to make room: all are in use, and none can be taken.
    pub closed spec fn full(&self) -> bool {
        &&& self.free_list@.len() == 0
        &&& forall|f: int| 0 <= f < self.data@.len() ==> #[trigger] self.replacer@.pinned[f]
    }

    closed spec fn shaped(&self) -> bool {
        &&& self.meta@.len() == self.data@.len()
        &&& self.pin_counts@.len() == self.data@.len()
        &&& self.replacer.wf()
        &&& self.replacer@.pinned.len() == self.data@.len()
    }

    closed spec fn mapped(&self) -> bool {
        &&& forall|id: PageId| #[trigger] self.page_table@.contains_key(id) ==> self.page_table@[id]
            < self.data@.len()
        &&& forall|f: int|
            0 <= f < self.data@.len() ==> ((#[trigger] self.meta@[f]).page_id matches Some(id) ==> {
                &&& self.page_table@.contains_key(id)
                &&& self.page_table@[id] == f
                &&& self.strange@.contains(id) || self.medium.pages().contains_key(id)
            })
        &&& forall|id: PageId| #[trigger] self.strange@.contains(id) ==> self.page_table@.contains_key(id)
            && self.meta@[self.page_table@[id] as int].page_id == Some(id)
    }

    /// A frame is set aside for the page and is not marked as its own.
    pub closed spec fn vacant(&self, id: PageId) -> bool {
        self.page_table@.contains_key(id) && self.meta@[self.page_table@[id] as int].page_id != Some(id)
    }

    /// Nothing was given for a page of the medium before the medium had it.
    pub open spec fn plain(&self) -> bool {
        forall|id: PageId| #[trigger] self.stale(id) && self.pages().contains_key(id) ==> self.vacant(id)
    }

    closed spec fn spare(&self) -> bool {
        &&& self.free_list@.no_duplicates()
        &&& forall|i: int|
            0 <= i < self.free_list@.len() ==> {
                let f = #[trigger] self.free_list@[i] as int;
                &&& f < self.data@.len()
                &&& self.meta@[f].page_id is None
                &&& self.pin_counts@[f] == 0
            }
        &&& forall|id: PageId| #[trigger] self.page_table@.contains_key(id)
            ==> !self.free_list@.contains(self.page_table@[id])
    }

    /// What is in frame `f` is what the medium has, unless it was written to.
    closed spec fn settled(&self, f: int) -> bool {
        let m = self.meta@[f];
        &&& m.dirty ==> self.at(f) is Some
        &&& self.at(f) matches Some(id) ==> m.dirty || self.touched@.contains(f) || self.data@[f]@
            == self.medium.pages()[id]
    }

    closed spec fn clean(&self) -> bool {
        forall|f: int| 0 <= f < self.data@.len() ==> #[trigger] self.settled(f)
    }

    closed spec fn pinned(&self) -> bool {
        &&& forall|f: int|
            0 <= f < self.data@.len() && #[trigger] self.pin_counts@[f] > 0
                ==> self.replacer@.pinned[f]
        &&& forall|f: int| #[trigger] self.touched@.contains(f) ==> {
            &&& 0 <= f < self.data@.len()
            &&& self.pin_counts@[f] > 0
            &&& self.at(f) is Some
        }
    }

    /// What every operation keeps.
    pub closed spec fn wf(&self) -> bool {
        &&& self.shaped()
        &&& self.mapped()
        &&& self.spare()
        &&& self.clean()
        &&& self.pinned()
    }

    /// Frames stay settled while neither they nor the pages in them change; `f` is the one frame
    /// that does.
    proof fn lemma_clean(&self, o: &Self, f: int)
        requires
            o.clean(),
            self.data@.len() == o.data@.len(),
            0 <= f < self.data@.len() ==> self.settled(f),
            forall|g: int|
                0 <= g < self.data@.len() && g != f ==> {
                    &&& (#[trigger] self.meta@[g]) == o.meta@[g]
                    &&& self.at(g) == o.at(g)
                    &&& self.data@[g]@ == o.data@[g]@
                    &&& o.touched@.contains(g) ==> self.touched@.contains(g)
                    &&& self.at(g) matches Some(id) ==> self.medium.pages()[id]
                        == o.medium.pages()[id]
                },
        ensures
            self.clean(),
    {
        assert forall|g: int| 0 <= g < self.data@.len() implies #[trigger] self.settled(g) by {
            if g != f {
                assert(self.meta@[g] == o.meta@[g]);
                assert(o.settled(g));
            }
        }
    }

    /// A page in a frame is what the pool has of it.
    pub proof fn lemma_at(&self, f: int, id: PageId)
        requires
            self.wf(),
            0 <= f < self.frames(),
            self.at(f) == Some(id),
        ensures
            self.pages().contains_key(id),
            self.pages()[id] == self.bytes_at(f),
            !self.stale(id),
            self.tabled(id),
            forall|g: int| 0 <= g < self.frames() && #[trigger] self.at(g) == Some(id) ==> g == f,
    {
        assert(self.meta@[f].page_id == Some(id));
        assert forall|g: int| 0 <= g < self.frames() && #[trigger] self.at(g) == Some(id) implies g
            == f by {
            assert(self.meta@[g].page_id == Some(id));
        }
    }

    pub proof fn lemma_frames(&self)
        requires
            self.wf(),
        ensures
            self.pins().len() == self.frames(),
    {
    }

    pub proof fn lemma_touched(&self, f: int)
        requires
            self.wf(),
            self.touched().contains(f),
        ensures
            0 <= f < self.frames(),
            self.pins()[f] > 0,
            self.at(f) is Some,
    {
        assert(self.touched@.contains(f));
    }

    /// The dial has a mark for each frame, and a frame that is held is pinned on it.
    pub proof fn lemma_dial(&self)
        requires
            self.wf(),
        ensures
            self.dial().shaped(),
            self.dial().pinned.len() == self.frames(),
            self.pins().len() == self.frames(),
            forall|f: int|
                0 <= f < self.frames() && #[trigger] self.pins()[f] > 0 ==> self.dial().pinned[f],
    {
        self.replacer.lemma_wf();
    }

    /// The pool is full if no frame is unused and all are pinned.
    pub proof fn lemma_crowded(&self)
        requires
            self.wf(),
        ensures
            self.full() <==> self.unused().len() == 0 && forall|f: int|
                0 <= f < self.frames() ==> #[trigger] self.dial().pinned[f],
    {
        if self.full() {
            assert forall|f: int| 0 <= f < self.frames() implies #[trigger] self.dial().pinned[f] by {
                assert(self.replacer@.pinned[f]);
            }
        }
        if forall|f: int| 0 <= f < self.frames() ==> #[trigger] self.dial().pinned[f] {
            assert forall|f: int| 0 <= f < self.data@.len() implies #[trigger] self.replacer@.pinned[f] by {
                assert(self.dial().pinned[f]);
            }
        }
    }

    /// Where no frame is unused the one that makes room is the one that the clock takes.
    pub proof fn lemma_giver(&self)
        requires
            self.wf(),
            !self.full(),
            self.unused().len() == 0,
        ensures
            self.dial().takes(self.giver()),
    {
        self.lemma_dial();
        let d = self.dial();
        let f = choose|f: int| 0 <= f < self.data@.len() && !#[trigger] self.replacer@.pinned[f];
        assert(d.free(f));
        crate::clock::lemma_takes(d, f);
    }

    /// Without frames there is no room.
    pub proof fn lemma_no_frames(&self)
        requires
            self.wf(),
            self.frames() == 0,
        ensures
            self.full(),
    {
        if self.free_list@.len() > 0 {
            assert(0 <= self.free_list@[0] < self.data@.len());
        }
    }

    /// Where no request to the medium has failed, there is no room if and only if a guard is held
    /// on every frame.
    pub proof fn lemma_full(&self)
        requires
            self.wf(),
            self.whole(),
        ensures
            self.full() <==> forall|f: int| 0 <= f < self.frames() ==> #[trigger] self.pins()[f] > 0,
    {
        if self.full() {
            assert forall|f: int| 0 <= f < self.frames() implies #[trigger] self.pins()[f] > 0 by {
                assert(self.replacer@.pinned[f]);
            }
        }
        if forall|f: int| 0 <= f < self.frames() ==> #[trigger] self.pins()[f] > 0 {
            if self.free_list@.len() > 0 {
                let f = self.free_list@[0] as int;
                assert(self.pins()[f] > 0);
            }
            assert forall|f: int| 0 <= f < self.data@.len() implies #[trigger] self.replacer@.pinned[f] by {
                assert(self.pins()[f] > 0);
            }
        }
    }

    /// Where no request to the medium has failed, a frame is set aside for a page if and only if the
    /// page is in it.
    pub proof fn lemma_tabled(&self, id: PageId)
        requires
            self.wf(),
            self.whole(),
        ensures
            self.tabled(id) <==> self.at_hand(id),
    {
        if self.tabled(id) {
            assert(self.cached(id));
            assert(self.at(self.page_table@[id] as int) == Some(id));
        }
        if self.at_hand(id) {
            let f = choose|f: int| 0 <= f < self.frames() && #[trigger] self.at(f) == Some(id);
            self.lemma_at(f, id);
        }
    }

    /// While fewer guards are held than there are frames, a frame can make room.
    pub proof fn lemma_not_full(&self)
        requires
            self.wf(),
            self.whole(),
            self.held() < self.frames(),
        ensures
            !self.full(),
    {
        if self.full() {
            assert forall|f: int| 0 <= f < self.pins().len() implies #[trigger] self.pins()[f] > 0 by {
                assert(self.replacer@.pinned[f]);
            }
            lemma_sum_all(self.pins());
        }
    }

    /// A frame that is not marked as that of the page it is set aside for holds something else.
    pub proof fn lemma_vacant(&self, id: PageId)
        ensures
            self.vacant(id) ==> self.stale(id),
            self.stale(id) ==> self.tabled(id),
    {
    }

    /// A frame that is set aside for a page is one of the frames.
    pub proof fn lemma_place(&self, id: PageId)
        requires
            self.wf(),
            self.tabled(id),
        ensures
            0 <= self.place(id) < self.frames(),
    {
    }

    /// A page that a frame is set aside for is in it, unless it could not be brought in.
    pub proof fn lemma_cached(&self, id: PageId)
        requires
            self.wf(),
            self.tabled(id),
            !self.stale(id),
        ensures
            self.at(self.place(id)) == Some(id),
            0 <= self.place(id) < self.frames(),
    {
    }

    /// A page whose frame holds no page is not there.
    pub proof fn lemma_stale(&self, id: PageId, f: int)
        requires
            self.tabled(id),
            self.place(id) == f,
            self.at(f) is None,
        ensures
            self.stale(id),
    {
    }

    pub proof fn lemma_plain(&self)
        requires
            self.whole(),
        ensures
            self.plain(),
    {
    }

    pub proof fn lemma_whole(&self, id: PageId)
        requires
            self.whole(),
        ensures
            !self.stale(id),
    {
    }

    pub fn new(medium: M, num_frames: usize) -> (r: Self)
        requires
            2 * num_frames <= usize::MAX,
        ensures
            r.wf(),
            r.whole(),
            r.frames() == num_frames,
            r.pages() == medium.pages(),
            r.reliable() == medium.reliable(),
            r.room() == medium.room(),
            r.pins() == Seq::new(num_frames as nat, |i: int| 0u32),
            r.held() == 0,
            r.touched() == Set::<int>::empty(),
            r.unspoilt(),
            r.full() <==> num_frames == 0,
            r.dial() == (Dial {
                reference: Seq::new(num_frames as nat, |i: int| false),
                pinned: Seq::new(num_frames as nat, |i: int| false),
                hand: 0,
            }),
            r.unused() == Seq::new(num_frames as nat, |i: int| i),
            forall|f: int| 0 <= f < num_frames ==> !#[trigger] r.dirty(f),
            forall|id: PageId| !#[trigger] r.tabled(id),
            r.records() == medium.records(),
            r.asked() == medium.asked(),
            forall|n: nat| #[trigger] r.upcoming(n) == medium.upcoming(n),
    {
        broadcast use vstd::std_specs::hash::group_hash_axioms;

        let mut data: Vec<Page> = Vec::new();
        let mut meta: Vec<FrameMeta> = Vec::new();
        let mut pin_counts: Vec<u32> = Vec::new();
        let mut free_list: Vec<usize> = Vec::new();
        let mut i: usize = 0;
        while i < num_frames
            invariant
                i <= num_frames,
                data@.len() == i,
                meta@.len() == i,
                pin_counts@.len() == i,
                free_list@.len() == i,
                forall|j: int| 0 <= j < i ==> (#[trigger] meta@[j]).page_id is None && !meta@[j].dirty,
                forall|j: int| 0 <= j < i ==> #[trigger] pin_counts@[j] == 0,
                forall|j: int| 0 <= j < i ==> #[trigger] free_list@[j] == j,
            decreases num_frames - i,
        {
            data.push(Page::default());
            meta.push(FrameMeta { page_id: None, dirty: false });
            pin_counts.push(0);
            free_list.push(i);
            i += 1;
        }
        proof {
            lemma_sum_zero(pin_counts@);
        }
        let r = Self {
            medium,
            data,
            meta,
            pin_counts,
            page_table: HashMap::new(),
            free_list,
            replacer: ClockReplacer::new(num_frames),
            touched: Ghost(Set::empty()),
            strange: Ghost(Set::empty()),
        };
        assert(r.pages() =~= medium.pages());
        assert(r.pins() =~= Seq::new(num_frames as nat, |i: int| 0u32));
        r
    }

    /// Everything but the marks of the replacer is as it was.
    closed spec fn same(&self, o: &Self) -> bool {
        &&& self.medium == o.medium
        &&& self.data@ == o.data@
        &&& self.meta@ == o.meta@
        &&& self.pin_counts@ == o.pin_counts@
        &&& self.page_table@ == o.page_table@
        &&& self.free_list@ == o.free_list@
        &&& self.touched@ == o.touched@
        &&& self.strange@ == o.strange@
    }

    /// The frames that are held, and what is in them, are as they were.
    pub open spec fn keeps(&self, o: &Self) -> bool {
        &&& self.frames() == o.frames()
        &&& forall|g: int|
            #![trigger self.at(g)]
            #![trigger self.bytes_at(g)]
            0 <= g < o.frames() && o.pins()[g] > 0 ==> self.at(g) == o.at(g) && self.bytes_at(g)
                == o.bytes_at(g)
    }

    /// No request has failed since `o`, and the guards are the same.
    pub open spec fn quiet(&self, o: &Self) -> bool {
        &&& self.wf()
        &&& self.whole()
        &&& self.reliable() == o.reliable()
        &&& self.pins() == o.pins()
        &&& self.touched() == o.touched()
        &&& self.keeps(o)
    }

    /// A frame is set aside for the page.
    pub closed spec fn tabled(&self, id: PageId) -> bool {
        self.page_table@.contains_key(id)
    }

    /// The page is there, or the medium says that it is not.
    pub open spec fn answers(&self, id: PageId) -> bool {
        self.pages().contains_key(id) || self.reliable()
    }

    /// Page `id` is in frame `f`, with one guard more on it than in `o`.
    pub open spec fn brought(&self, o: &Self, id: PageId, f: int) -> bool {
        &&& 0 <= f < self.frames()
        &&& o.pins()[f] < u32::MAX
        &&& self.pins() == o.pins().update(f, (o.pins()[f] + 1) as u32)
        &&& self.held() == o.held() + 1
        &&& !o.stale(id) && o.pages().contains_key(id) ==> self.at(f) == Some(id)
        &&& o.whole() && o.pages().contains_key(id) ==> self.whole()
        &&& forall|j: PageId| #[trigger] self.stale(j) ==> o.stale(j) || (j == id
            && !o.pages().contains_key(id))
    }

    /// Page `id` could not be brought in, for the reason `e`.
    pub open spec fn refused(&self, o: &Self, id: PageId, e: BpmError<M::Error>) -> bool {
        &&& self.pins() == o.pins()
        &&& match e {
            BpmError::BufferFull => {
                &&& self.full()
                &&& o.whole() ==> self.whole()
                &&& forall|j: PageId| #[trigger] self.stale(j) ==> o.stale(j)
            },
            BpmError::Medium(_) => {
                &&& !o.reliable() || !o.pages().contains_key(id)
                &&& forall|j: PageId| #[trigger] self.stale(j) ==> o.stale(j) || j == id
            },
        }
    }

    /// Takes a frame out of the free list, or makes one free.
    fn take_frame(&mut self) -> (r: Result<usize, BpmError<M::Error>>)
        requires
            old(self).wf(),
        ensures
            final(self).wf(),
            final(self).pages() == old(self).pages(),
            final(self).medium.pages().dom() == old(self).medium.pages().dom(),
            final(self).room() == old(self).room(),
            final(self).reliable() == old(self).reliable(),
            final(self).pins() == old(self).pins(),
            final(self).touched() == old(self).touched(),
            final(self).keeps(old(self)),
            forall|j: PageId| #[trigger] final(self).page_table@.contains_key(j)
                ==> old(self).page_table@.contains_key(j),
            forall|j: PageId| #[trigger] final(self).stale(j) ==> old(self).stale(j) && (old(
                self,
            ).vacant(j) ==> final(self).vacant(j)),
            final(self).records() == old(self).records(),
            forall|n: nat| #[trigger] final(self).upcoming(n) == old(self).upcoming(n),
            match r {
                Ok(f) => {
                    &&& !old(self).full()
                    &&& f == old(self).giver()
                    &&& final(self).same_others(old(self))
                    &&& final(self).bytes_at(f as int) == old(self).bytes_at(f as int)
                    &&& !final(self).dirty(f as int)
                    &&& final(self).dial() == old(self).giver_dial()
                    &&& final(self).unused() == old(self).left_unused()
                    &&& forall|j: PageId| #[trigger] final(self).page_table@.contains_key(j)
                        ==> final(self).page_table@[j] == old(self).page_table@[j]
                    &&& forall|j: PageId| #[trigger] final(self).page_table@.contains_key(j) ==> old(
                        self,
                    ).at(f as int) != Some(j)
                    &&& old(self).records() ==> final(self).asked() == old(self).asked() + old(
                        self,
                    ).write_back(None)
                    &&& f < final(self).frames()
                    &&& final(self).pins()[f as int] == 0
                    &&& final(self).meta@[f as int].page_id is None
                    &&& !final(self).free_list@.contains(f)
                    &&& old(self).whole() ==> {
                        &&& forall|id: PageId| #[trigger] final(self).page_table@.contains_key(id)
                            ==> final(self).cached(id)
                        &&& forall|g: int|
                            0 <= g < final(self).data@.len() && g != f
                                && #[trigger] final(self).replacer@.pinned[g]
                                ==> final(self).pin_counts@[g] > 0
                    }
                },
                Err(BpmError::BufferFull) => {
                    &&& old(self).full()
                    &&& final(self).full()
                    &&& final(self).same(old(self))
                    &&& final(self).same_turn(old(self))
                    &&& old(self).whole() ==> final(self).whole()
                },
                Err(BpmError::Medium(e)) => {
                    &&& !old(self).full()
                    &&& !old(self).reliable()
                    &&& old(self).dirty(old(self).giver())
                    &&& final(self).same_frames(old(self))
                    &&& final(self).dial() == old(self).giver_dial()
                    &&& final(self).unused() == old(self).unused()
                    &&& final(self).page_table@ == old(self).page_table@
                    &&& old(self).records() ==> final(self).asked() == old(self).asked() + old(
                        self,
                    ).write_back(Some(e))
                },
            },
    {
        broadcast use vstd::std_specs::hash::group_hash_axioms;

        if self.free_list.len() > 0 {
            let id = self.free_list.pop().unwrap();
            proof {
                let l = old(self).free_list@;
                assert(l.last() == id);
                assert forall|i: int| 0 <= i < self.free_list@.len() implies {
                    let f = #[trigger] self.free_list@[i] as int;
                    &&& f < self.data@.len()
                    &&& self.meta@[f].page_id is None
                    &&& self.pin_counts@[f] == 0
                } by {
                    assert(self.free_list@[i] == l[i]);
                }
                assert forall|j: PageId| #[trigger]
                    self.page_table@.contains_key(j) implies !self.free_list@.contains(
                    self.page_table@[j],
                ) by {
                    if self.free_list@.contains(self.page_table@[j]) {
                        let i = self.free_list@.index_of(self.page_table@[j]);
                        assert(l[i] == self.page_table@[j]);
                    }
                }
                if self.free_list@.contains(id) {
                    let i = self.free_list@.index_of(id);
                    assert(l[i] == l[l.len() - 1]);
                }
                assert(self.pages() =~= old(self).pages());
                assert(self.pinned());
                self.lemma_clean(old(self), -1);
                assert(!old(self).dirty(id as int)) by {
                    assert(old(self).meta@[l[l.len() - 1] as int].page_id is None);
                    assert(old(self).settled(id as int));
                }
                assert(old(self).unused().last() == id);
                assert(self.unused() =~= old(self).unused().drop_last());
                assert(self.asked() =~= old(self).asked() + old(self).write_back(None));
            }
            return Ok(id);
        }
        let victim = self.replacer.victim();
        let victim_id = match victim {
            Some(f) => f,
            None => {
                assert(self.pages() =~= old(self).pages());
                proof {
                    self.lemma_clean(old(self), -1);
                }
                return Err(BpmError::BufferFull);
            },
        };
        let ghost f = victim_id as int;
        proof {
            let d = old(self).replacer@;
            assert(d.takes(f));
            old(self).replacer.lemma_wf();
            assert(d.free(f));
            law_one_victim(d, f, choose|g: int| d.takes(g));
            assert(f == old(self).giver());
            assert(old(self).replacer@.free(f));
            assert(self.pin_counts@[f] == 0);
            assert(self.pinned());
            self.lemma_clean(old(self), -1);
            assert(self.wf());
            assert(self.pages() =~= old(self).pages());
        }
        let ghost turned = *self;
        if self.meta[victim_id].dirty {
            assert(self.settled(f));
            let old_id = self.meta[victim_id].page_id.unwrap();
            let ghost before = self.medium.pages();
            assert(self.meta@[f].page_id == Some(old_id));
            let written = self.medium.write_page(old_id, &self.data[victim_id]);
            proof {
                let after = self.medium.pages();
                assert forall|j: PageId| j != old_id && before.contains_key(j) implies after[j]
                    == before[j] by {
                    assert(after.remove(old_id)[j] == before.remove(old_id)[j]);
                }
                assert(forall|j: PageId| before.contains_key(j) == after.contains_key(j)) by {
                    assert(before.dom() == after.dom());
                    assert(forall|j: PageId| before.dom().contains(j) == after.dom().contains(j));
                }
                assert(self.mapped());
                assert forall|g: int| 0 <= g < self.data@.len() && g != f implies (
                #[trigger] self.meta@[g]).page_id != Some(old_id) by {
                    if self.meta@[g].page_id == Some(old_id) {
                        assert(self.page_table@[old_id] == g);
                        assert(self.page_table@[old_id] == f);
                    }
                }
                self.lemma_clean(&turned, f);
                assert(self.wf());
                assert(self.pages() =~= old(self).pages());
            }
            match written {
                Ok(_) => {},
                Err(e) => {
                    proof {
                        if old(self).records() {
                            assert(self.asked() =~= old(self).asked() + old(self).write_back(Some(e)));
                        }
                    }
                    return Err(BpmError::Medium(e));
                },
            }
        }
        let ghost mid = *self;
        if let Some(old_id) = self.meta[victim_id].page_id {
            self.page_table.remove(&old_id);
            self.strange = Ghost(self.strange@.remove(old_id));
        }
        self.meta[victim_id].dirty = false;
        self.meta[victim_id].page_id = None;
        proof {
            assert forall|g: int| 0 <= g < self.data@.len() && g != f implies self.meta@[g]
                == mid.meta@[g] by {}
            assert forall|g: int| 0 <= g < self.data@.len() implies ((
            #[trigger] self.meta@[g]).page_id matches Some(id) ==> {
                &&& self.page_table@.contains_key(id)
                &&& self.page_table@[id] == g
                &&& self.strange@.contains(id) || self.medium.pages().contains_key(id)
            }) by {
                if g != f {
                    assert(self.meta@[g] == mid.meta@[g]);
                }
            }
            assert forall|g: int| 0 <= g < self.data@.len() && g != f implies #[trigger] self.at(g)
                == mid.at(g) by {
                assert(self.meta@[g] == mid.meta@[g]);
                if self.meta@[g].page_id is Some {
                    assert(mid.page_table@[self.meta@[g].page_id->0] == g);
                }
            }
            self.lemma_clean(&mid, f);
            assert(self.mapped());
            assert(self.pinned());
            assert(self.spare());
            assert(mid.settled(f));
            assert(self.pages() =~= old(self).pages());
            if old(self).records() {
                assert(self.asked() =~= old(self).asked() + old(self).write_back(None));
            }
        }
        Ok(victim_id)
    }

    /// Reading and writing pages hands none out and takes none back.
    proof fn lemma_quiet_log(&self, o: &Self, log: Seq<Asked<M::Error>>)
        requires
            log.len() <= 2,
            forall|i: int| 0 <= i < log.len() ==> (#[trigger] log[i]) is Read || log[i] is Write,
        ensures
            tally(o.asked() + log) == tally(o.asked()),
    {
        let a = o.asked();
        if log.len() == 0 {
            assert(a + log =~= a);
        } else {
            lemma_tally_push(a, log[0]);
            if log.len() == 1 {
                assert(a + log =~= a.push(log[0]));
            } else {
                lemma_tally_push(a.push(log[0]), log[1]);
                assert(a + log =~= a.push(log[0]).push(log[1]));
            }
        }
    }

    /// Brings a page into a frame and holds it there.
    pub(crate) fn fetch_frame(&mut self, page_id: PageId) -> (r: Result<usize, BpmError<M::Error>>)
        requires
            old(self).wf(),
            old(self).held() < u32::MAX,
        ensures
            final(self).frames() == old(self).frames(),
            final(self).reliable() == old(self).reliable(),
            final(self).room() == old(self).room(),
            r matches Err(BpmError::BufferFull) <==> old(self).full() && !old(self).tabled(page_id),
            old(self).whole() ==> (r matches Err(BpmError::BufferFull) <==> !old(self).at_hand(page_id)
                && (forall|f: int| 0 <= f < old(self).frames() ==> #[trigger] old(self).pins()[f] > 0)),
            final(self).fetched(
                old(self),
                page_id,
                match r {
                    Ok(f) => Ok(f as int),
                    Err(e) => Err(e),
                },
            ),
            old(self).tabled(page_id) ==> r is Ok,
            final(self).wf(),
            final(self).pages() == old(self).pages(),
            final(self).touched() == old(self).touched(),
            final(self).keeps(old(self)),
            old(self).plain() ==> final(self).plain(),
            match r {
                Ok(f) => final(self).brought(old(self), page_id, f as int),
                Err(e) => final(self).refused(old(self), page_id, e),
            },
            old(self).reliable() && !old(self).pages().contains_key(page_id) && !old(self).tabled(
                page_id,
            ) ==> r is Err,
    {
        broadcast use vstd::std_specs::hash::group_hash_axioms;

        proof {
            if self.whole() {
                self.lemma_full();
                self.lemma_tabled(page_id);
            }
        }
        let hit = match self.page_table.get(&page_id) {
            Some(f) => Some(*f),
            None => None,
        };
        if let Some(frame_id) = hit {
            proof {
                lemma_sum_bound(self.pin_counts@, frame_id as int);
                lemma_sum_update(
                    self.pin_counts@,
                    frame_id as int,
                    (self.pin_counts@[frame_id as int] + 1) as u32,
                );
            }
            self.pin_counts[frame_id] = self.pin_counts[frame_id] + 1;
            self.replacer.pin(frame_id);
            proof {
                let f = frame_id as int;
                assert(self.pages() =~= old(self).pages());
                assert(!self.free_list@.contains(frame_id));
                assert forall|i: int| 0 <= i < self.free_list@.len() implies {
                    let f = #[trigger] self.free_list@[i] as int;
                    &&& f < self.data@.len()
                    &&& self.meta@[f].page_id is None
                    &&& self.pin_counts@[f] == 0
                } by {
                    assert(self.free_list@[i] != frame_id);
                }
                self.lemma_clean(old(self), -1);
                assert(self.wf());
                assert(old(self).whole() ==> self.whole()) by {
                    assert forall|g: int| old(self).whole() && 0 <= g < self.data@.len()
                        && #[trigger] self.replacer@.pinned[g] implies self.pin_counts@[g] > 0 by {
                        if g != f {
                            assert(old(self).replacer@.pinned[g]);
                        }
                    }
                }
            }
            return Ok(frame_id);
        }
        let frame_id = match self.take_frame() {
            Ok(f) => f,
            Err(e) => {
                proof {
                    if e is Medium {
                        self.lemma_quiet_log(
                            old(self),
                            old(self).write_back(Some(e->Medium_0)),
                        );
                        assert forall|j: PageId| #[trigger] self.stale(j) == old(self).stale(j) by {
                            if self.page_table@.contains_key(j) {
                                let g = self.page_table@[j] as int;
                                assert(self.at(g) == old(self).at(g));
                            }
                        }
                        assert forall|j: PageId| #[trigger] self.tabled(j) == old(self).tabled(j) by {}
                        assert(self.unsaved(old(self), page_id, e->Medium_0));
                    } else {
                        assert(self.same_frames(old(self)));
                        assert(self.asked() == old(self).asked());
                        assert(self.same_table(old(self)));
                    }
                }
                assert(old(self).plain() ==> self.plain());
                return Err(e);
            },
        };
        let ghost mid = *self;
        let ghost f = frame_id as int;
        assert(!self.strange@.contains(page_id));
        self.page_table.insert(page_id, frame_id);
        assert(self.pages() =~= mid.pages());
        let fresh = match self.medium.read_page(page_id) {
            Ok(p) => p,
            Err(e) => {
                proof {
                    assert(self.pages() =~= old(self).pages());
                    assert(self.mapped());
                    assert(self.spare());
                    self.lemma_clean(&mid, -1);
                    assert(self.pinned());
                    assert forall|g: int| 0 <= g < old(self).frames() && old(self).pins()[g] > 0 implies self.at(
                        g,
                    ) == old(self).at(g) && self.bytes_at(g) == old(self).bytes_at(g) by {
                        assert(mid.at(g) == old(self).at(g));
                        assert(mid.bytes_at(g) == old(self).bytes_at(g));
                    }
                    assert forall|j: PageId| #[trigger] self.stale(j) implies old(self).stale(j) || j
                        == page_id by {
                        if j != page_id {
                            assert(mid.stale(j));
                        }
                    }
                    assert(self.same_others(old(self))) by {
                        assert forall|g: int|
                            0 <= g < old(self).frames() && g != f implies self.at(g) == old(self).at(g)
                            && self.bytes_at(g) == old(self).bytes_at(g) by {
                            assert(mid.at(g) == old(self).at(g));
                            assert(mid.bytes_at(g) == old(self).bytes_at(g));
                        }
                        assert forall|g: int| 0 <= g < old(self).frames() && g != f implies
                            #[trigger] self.dirty(g) == old(self).dirty(g) by {
                            assert(mid.dirty(g) == old(self).dirty(g));
                        }
                    }
                    assert(self.same_places(old(self), page_id));
                    self.lemma_quiet_log(old(self), old(self).write_back(None) + seq![
                        Asked::Read(page_id, Err(e)),
                    ]);
                    if old(self).records() {
                        assert(self.asked() =~= old(self).asked() + old(self).write_back(None) + seq![
                            Asked::Read(page_id, Err(e)),
                        ]);
                        assert(self.asked() =~= old(self).asked() + (old(self).write_back(None) + seq![
                            Asked::Read(page_id, Err(e)),
                        ]));
                    }
                    assert forall|n: nat| #[trigger] self.upcoming(n) == old(self).upcoming(n) by {
                        assert(self.medium.upcoming(n) == mid.medium.upcoming(n));
                        assert(mid.upcoming(n) == old(self).upcoming(n));
                    }
                    assert(self.unread(old(self), page_id, e));
                    assert(old(self).plain() ==> self.plain()) by {
                        assert forall|j: PageId| old(self).plain() && #[trigger] self.stale(j)
                            && self.pages().contains_key(j) implies self.vacant(j) by {
                            if j != page_id {
                                assert(mid.stale(j));
                                assert(old(self).vacant(j));
                            }
                        }
                    }
                }
                return Err(BpmError::Medium(e));
            },
        };
        self.data[frame_id] = fresh;
        self.meta[frame_id].page_id = Some(page_id);
        self.pin_counts[frame_id] = 1;
        self.replacer.pin(frame_id);
        self.strange = Ghost(
            if self.medium.pages().contains_key(page_id) {
                self.strange@
            } else {
                self.strange@.insert(page_id)
            },
        );
        proof {
            assert(self.same_others(old(self))) by {
                assert forall|g: int|
                    0 <= g < old(self).frames() && g != f implies self.at(g) == old(self).at(g)
                    && self.bytes_at(g) == old(self).bytes_at(g) by {
                    assert(mid.at(g) == old(self).at(g));
                    assert(mid.bytes_at(g) == old(self).bytes_at(g));
                }
                assert forall|g: int| 0 <= g < old(self).frames() && g != f implies
                    #[trigger] self.dirty(g) == old(self).dirty(g) by {
                    assert(mid.dirty(g) == old(self).dirty(g));
                }
            }
            assert(self.same_places(old(self), page_id));
            self.lemma_quiet_log(old(self), old(self).write_back(None) + seq![
                Asked::Read(page_id, Ok(self.bytes_at(f))),
            ]);
            if old(self).records() {
                assert(self.asked() =~= old(self).asked() + old(self).write_back(None) + seq![
                    Asked::Read(page_id, Ok(self.bytes_at(f))),
                ]);
                assert(self.asked() =~= old(self).asked() + (old(self).write_back(None) + seq![
                    Asked::Read(page_id, Ok(self.bytes_at(f))),
                ]));
            }
            if let Some(q) = old(self).at(f) {
                old(self).lemma_at(f, q);
                assert(!mid.page_table@.contains_key(q));
                assert(!self.tabled(q));
                assert forall|g: int| 0 <= g < self.frames() implies #[trigger] self.at(g) != Some(q) by {
                    if g != f {
                        assert(old(self).at(g) != Some(q));
                    }
                }
            }
            assert forall|n: nat| #[trigger] self.upcoming(n) == old(self).upcoming(n) by {
                assert(self.medium.upcoming(n) == mid.medium.upcoming(n));
                assert(mid.upcoming(n) == old(self).upcoming(n));
            }
            assert(self.loaded(old(self), page_id, f));
            lemma_sum_update(mid.pin_counts@, f, 1);
            {
                assert(!mid.strange@.contains(page_id));
                assert(old(self).pages().contains_key(page_id) == self.medium.pages().contains_key(page_id));
                assert forall|g: int| 0 <= g < self.data@.len() && g != f implies self.meta@[g]
                    == mid.meta@[g] by {}
                assert forall|g: int| 0 <= g < self.data@.len() implies ((
                #[trigger] self.meta@[g]).page_id matches Some(id) ==> {
                    &&& self.page_table@.contains_key(id)
                    &&& self.page_table@[id] == g
                    &&& self.strange@.contains(id) || self.medium.pages().contains_key(id)
                }) by {
                    if g != f {
                        assert(self.meta@[g] == mid.meta@[g]);
                    }
                }
                assert forall|id: PageId| #[trigger]
                    self.strange@.contains(id) implies self.page_table@.contains_key(id)
                    && self.meta@[self.page_table@[id] as int].page_id == Some(id) by {
                    if id != page_id {
                        assert(mid.strange@.contains(id));
                        let g = mid.page_table@[id] as int;
                        assert(mid.meta@[g].page_id == Some(id));
                        assert(g != f);
                        assert(self.meta@[g] == mid.meta@[g]);
                    }
                }
                assert forall|g: int| 0 <= g < self.data@.len() && g != f implies #[trigger] self.at(g)
                    == mid.at(g) by {
                    assert(self.meta@[g] == mid.meta@[g]);
                    assert(mid.meta@[g].page_id != Some(page_id)) by {
                        if mid.meta@[g].page_id == Some(page_id) {
                            assert(mid.page_table@.contains_key(page_id));
                        }
                    }
                }
                assert(self.mapped());
                assert(self.spare()) by {
                    assert forall|i: int| 0 <= i < self.free_list@.len() implies {
                        let f = #[trigger] self.free_list@[i] as int;
                        &&& f < self.data@.len()
                        &&& self.meta@[f].page_id is None
                        &&& self.pin_counts@[f] == 0
                    } by {
                        assert(self.free_list@.contains(self.free_list@[i]));
                        assert(self.free_list@[i] == mid.free_list@[i]);
                    }
                }
                self.lemma_clean(&mid, f);
                assert(self.pinned());
                assert(self.pages() =~= old(self).pages());
                assert(self.wf());
                assert forall|g: int| 0 <= g < old(self).frames() && old(self).pins()[g] > 0 implies self.at(
                    g,
                ) == old(self).at(g) && self.bytes_at(g) == old(self).bytes_at(g) by {
                    assert(mid.at(g) == old(self).at(g));
                    assert(mid.bytes_at(g) == old(self).bytes_at(g));
                }
                assert(self.held() == old(self).held() + 1);
                assert forall|j: PageId| j != page_id implies #[trigger] self.stale(j) == mid.stale(j)
                    && self.vacant(j) == mid.vacant(j) by {
                    if mid.page_table@.contains_key(j) {
                        let g = mid.page_table@[j] as int;
                        if g == f {
                            assert(mid.meta@[g].page_id is None);
                        } else {
                            assert(self.meta@[g] == mid.meta@[g]);
                        }
                    }
                }
                assert(old(self).whole() && old(self).pages().contains_key(page_id) ==> self.whole()) by {
                    if old(self).whole() && old(self).pages().contains_key(page_id) {
                        assert forall|id: PageId| #[trigger] self.page_table@.contains_key(id) implies self.cached(
                            id,
                        ) by {
                            if id != page_id {
                                assert(mid.cached(id));
                                assert(!mid.stale(id));
                                assert(!self.stale(id));
                            }
                        }
                    }
                }
                assert forall|j: PageId| #[trigger] self.stale(j) implies old(self).stale(j) || (j
                    == page_id && !old(self).pages().contains_key(page_id)) by {
                    if j != page_id {
                        assert(mid.stale(j));
                    }
                }
                assert(old(self).plain() ==> self.plain()) by {
                    assert forall|j: PageId| old(self).plain() && #[trigger] self.stale(j)
                        && self.pages().contains_key(j) implies self.vacant(j) by {
                        assert(j != page_id);
                        assert(mid.stale(j));
                        assert(old(self).stale(j));
                        assert(old(self).vacant(j));
                        assert(mid.vacant(j));
                        assert(self.stale(j) == mid.stale(j));
                    }
                }
            }
        }
        Ok(frame_id)
    }

    /// Gives up one guard on a frame.
    fn unpin(&mut self, frame_id: usize, mark_dirty: bool)
        requires
            old(self).wf(),
            frame_id < old(self).frames(),
            old(self).pins()[frame_id as int] > 0,
            mark_dirty ==> old(self).at(frame_id as int) is Some,
            !mark_dirty && old(self).touched().contains(frame_id as int)
                ==> old(self).pins()[frame_id as int] > 1,
        ensures
            final(self).wf(),
            final(self).let_go(old(self), frame_id as int),
            final(self).dirty(frame_id as int) == (mark_dirty || old(self).dirty(frame_id as int)),
            final(self).touched() == if mark_dirty {
                old(self).touched().remove(frame_id as int)
            } else {
                old(self).touched()
            },
    {
        let ghost f = frame_id as int;
        proof {
            lemma_sum_update(self.pin_counts@, f, (self.pin_counts@[f] - 1) as u32);
        }
        if mark_dirty {
            self.meta[frame_id].dirty = true;
            self.touched = Ghost(self.touched@.remove(f));
        }
        let prev = self.pin_counts[frame_id];
        self.pin_counts[frame_id] = prev - 1;
        if prev == 1 {
            self.replacer.unpin(frame_id);
        }
        proof {
            assert forall|g: int| 0 <= g < self.data@.len() implies self.meta@[g].page_id == old(
                self,
            ).meta@[g].page_id by {}
            assert(self.mapped()) by {
                assert forall|g: int| 0 <= g < self.data@.len() implies ((
                #[trigger] self.meta@[g]).page_id matches Some(id) ==> {
                    &&& self.page_table@.contains_key(id)
                    &&& self.page_table@[id] == g
                    &&& self.strange@.contains(id) || self.medium.pages().contains_key(id)
                }) by {
                    assert(self.meta@[g].page_id == old(self).meta@[g].page_id);
                }
            }
            assert(self.spare());
            assert(old(self).settled(f));
            self.lemma_clean(old(self), f);
            assert(self.pinned());
            assert(self.pages() =~= old(self).pages());
            assert(old(self).whole() ==> self.whole()) by {
                assert forall|g: int| old(self).whole() && 0 <= g < self.data@.len()
                    && #[trigger] self.replacer@.pinned[g] implies self.pin_counts@[g] > 0 by {
                    assert(old(self).replacer@.pinned[g]);
                }
            }
            assert forall|j: PageId| #[trigger] self.stale(j) == old(self).stale(j) by {
                assert(self.cached(j) == old(self).cached(j));
            }
        }
    }

    /// One guard on frame `f` less than in `o`: with the last one the frame can be taken again.
    /// Nothing else that can be seen has changed, but for whether the frame was written to.
    pub open spec fn let_go(&self, o: &Self, f: int) -> bool {
        &&& self.frames() == o.frames()
        &&& self.pages() == o.pages()
        &&& self.reliable() == o.reliable()
        &&& self.room() == o.room()
        &&& self.idle_medium(o)
        &&& self.pins() == o.pins().update(f, (o.pins()[f] - 1) as u32)
        &&& self.held() == o.held() - 1
        &&& forall|g: int| #![trigger self.at(g)] 0 <= g < o.frames() ==> self.at(g) == o.at(g)
        &&& forall|g: int|
            #![trigger self.bytes_at(g)]
            0 <= g < o.frames() ==> self.bytes_at(g) == o.bytes_at(g)
        &&& o.whole() ==> self.whole()
        &&& self.same_table(o)
        &&& o.plain() ==> self.plain()
        &&& forall|g: int| 0 <= g < o.frames() && g != f ==> #[trigger] self.dirty(g) == o.dirty(g)
        &&& self.unused() == o.unused()
        &&& self.dial() == if o.pins()[f] == 1 {
            o.dial().unpin(f)
        } else {
            o.dial()
        }
    }

    /// Holds a page to read it.
    pub fn read(&mut self, id: PageId) -> (r: Result<ReadGuard, BpmError<M::Error>>)
        requires
            old(self).wf(),
            old(self).held() < u32::MAX,
        ensures
            final(self).frames() == old(self).frames(),
            final(self).reliable() == old(self).reliable(),
            final(self).room() == old(self).room(),
            r matches Err(BpmError::BufferFull) <==> old(self).full() && !old(self).tabled(id),
            final(self).fetched(
                old(self),
                id,
                match r {
                    Ok(g) => Ok(g.frame()),
                    Err(e) => Err(e),
                },
            ),
            old(self).tabled(id) ==> r is Ok,
            final(self).wf(),
            final(self).pages() == old(self).pages(),
            final(self).touched() == old(self).touched(),
            final(self).keeps(old(self)),
            old(self).plain() ==> final(self).plain(),
            match r {
                Ok(g) => final(self).brought(old(self), id, g.frame()),
                Err(e) => final(self).refused(old(self), id, e),
            },
            old(self).whole() ==> (r matches Err(BpmError::BufferFull) <==> !old(self).at_hand(id) && (
            forall|f: int| 0 <= f < old(self).frames() ==> #[trigger] old(self).pins()[f] > 0)),
            old(self).reliable() && !old(self).pages().contains_key(id) && !old(self).tabled(id)
                ==> r is Err,
    {
        match self.fetch_frame(id) {
            Ok(frame_id) => Ok(ReadGuard { frame_id }),
            Err(e) => Err(e),
        }
    }

    /// Whether a frame is set aside for a page and is not marked as its own.
    pub fn is_vacant(&self, id: PageId) -> (r: bool)
        requires
            self.wf(),
        ensures
            r == self.vacant(id),
    {
        broadcast use vstd::std_specs::hash::group_hash_axioms;

        match self.page_table.get(&id) {
            Some(f) => match self.meta[*f].page_id {
                Some(j) => j != id,
                None => true,
            },
            None => false,
        }
    }

    /// The page that is held.
    pub fn page(&self, guard: &ReadGuard) -> (r: &Page)
        requires
            self.wf(),
            0 <= guard.frame() < self.frames(),
        ensures
            r@ == self.bytes_at(guard.frame()),
    {
        &self.data[guard.frame_id]
    }

    /// Gives up a read guard.
    pub fn release(&mut self, guard: ReadGuard)
        requires
            old(self).wf(),
            0 <= guard.frame() < old(self).frames(),
            old(self).pins()[guard.frame()] > 0,
            old(self).touched().contains(guard.frame()) ==> old(self).pins()[guard.frame()] > 1,
        ensures
            final(self).wf(),
            final(self).let_go(old(self), guard.frame()),
            final(self).dirty(guard.frame()) == old(self).dirty(guard.frame()),
            final(self).touched() == old(self).touched(),
    {
        self.unpin(guard.frame_id, false);
    }

    proof fn lemma_fetched(&self, mid: &Self, o: &Self, id: PageId, f: int)
        requires
            mid.fetched(o, id, Ok(f)),
            mid.frames() == o.frames(),
            self.medium == mid.medium,
            self.data == mid.data,
            self.meta == mid.meta,
            self.page_table == mid.page_table,
            self.replacer == mid.replacer,
            self.free_list == mid.free_list,
            self.strange == mid.strange,
        ensures
            self.fetched(o, id, Ok(f)),
    {
        assert forall|g: int| #[trigger] self.at(g) == mid.at(g) by {}
        assert forall|g: int| #[trigger] self.bytes_at(g) == mid.bytes_at(g) by {}
        assert forall|n: nat| #[trigger] self.upcoming(n) == mid.upcoming(n) by {}
        assert forall|j: PageId| #[trigger] self.tabled(j) == mid.tabled(j) by {}
        assert forall|j: PageId| #[trigger] self.stale(j) == mid.stale(j) by {}
        assert forall|j: PageId| #[trigger] self.place(j) == mid.place(j) by {}
        assert forall|g: int| #[trigger] self.dirty(g) == mid.dirty(g) by {}
        if !o.tabled(id) && !o.full() {
            assert(mid.loaded(o, id, f));
            assert(self.same_others(o)) by {
                assert forall|g: int|
                    0 <= g < o.frames() && g != f implies self.at(g) == o.at(g) && self.bytes_at(g)
                    == o.bytes_at(g) by {
                    assert(mid.at(g) == o.at(g));
                    assert(mid.bytes_at(g) == o.bytes_at(g));
                }
                assert forall|g: int| 0 <= g < o.frames() && g != f implies #[trigger] self.dirty(g)
                    == o.dirty(g) by {
                    assert(mid.dirty(g) == o.dirty(g));
                }
            }
            assert(self.same_places(o, id)) by {
                assert forall|j: PageId| j != id && #[trigger] self.tabled(j) implies o.tabled(j)
                    && self.place(j) == o.place(j) by {
                    assert(mid.tabled(j));
                }
            }
            if let Some(q) = o.at(f) {
                assert(!mid.at_hand(q));
                assert forall|g: int| 0 <= g < self.frames() implies #[trigger] self.at(g) != Some(q) by {
                    assert(mid.at(g) != Some(q));
                }
            }
            assert(self.loaded(o, id, f));
        }
    }

    /// Holds a page to write to it.
    pub fn write(&mut self, id: PageId) -> (r: Result<WriteGuard, BpmError<M::Error>>)
        requires
            old(self).wf(),
            old(self).held() < u32::MAX,
        ensures
            final(self).frames() == old(self).frames(),
            final(self).reliable() == old(self).reliable(),
            final(self).room() == old(self).room(),
            r matches Err(BpmError::BufferFull) <==> old(self).full() && !old(self).tabled(id),
            old(self).tabled(id) ==> r is Ok,
            final(self).fetched(
                old(self),
                id,
                match r {
                    Ok(g) => Ok(g.frame()),
                    Err(e) => Err(e),
                },
            ),
            old(self).plain() ==> final(self).plain(),
            old(self).answers(id) && !old(self).stale(id) ==> {
                &&& final(self).wf()
                &&& final(self).pages() == old(self).pages()
                &&& final(self).keeps(old(self))
                &&& match r {
                    Ok(g) => {
                        &&& final(self).brought(old(self), id, g.frame())
                        &&& final(self).touched() == old(self).touched().insert(g.frame())
                    },
                    Err(e) => {
                        &&& final(self).refused(old(self), id, e)
                        &&& final(self).touched() == old(self).touched()
                    },
                }
            },
            old(self).reliable() && !old(self).pages().contains_key(id) && !old(self).tabled(id)
                ==> r is Err,
    {
        match self.fetch_frame(id) {
            Ok(frame_id) => {
                let ghost mid = *self;
                self.touched = Ghost(self.touched@.insert(frame_id as int));
                proof {
                    self.lemma_fetched(&mid, old(self), id, frame_id as int);
                    assert(self.pages() =~= mid.pages());
                    assert(mid.plain() ==> self.plain()) by {
                        assert forall|j: PageId| mid.plain() && #[trigger] self.stale(j)
                            && self.pages().contains_key(j) implies self.vacant(j) by {
                            assert(mid.stale(j));
                            assert(mid.vacant(j));
                        }
                    }
                    if old(self).answers(id) && !old(self).stale(id) {
                        assert(self.pages() =~= mid.pages());
                        self.lemma_clean(&mid, frame_id as int);
                        assert(self.meta@[frame_id as int].page_id == self.at(frame_id as int));
                        assert(mid.at(frame_id as int) == Some(id));
                        assert(self.pinned());
                        assert forall|j: PageId| #[trigger] self.stale(j) == mid.stale(j) by {
                            assert(self.cached(j) == mid.cached(j));
                        }
                        assert forall|g: int|
                            0 <= g < old(self).frames() && old(self).pins()[g] > 0 implies self.at(g)
                            == old(self).at(g) && self.bytes_at(g) == old(self).bytes_at(g) by {
                            assert(mid.at(g) == old(self).at(g));
                            assert(mid.bytes_at(g) == old(self).bytes_at(g));
                        }
                    }
                }
                Ok(WriteGuard { frame_id })
            },
            Err(e) => Err(e),
        }
    }

    /// The page that is held.
    pub fn page_of(&self, guard: &WriteGuard) -> (r: &Page)
        requires
            self.wf(),
            0 <= guard.frame() < self.frames(),
        ensures
            r@ == self.bytes_at(guard.frame()),
    {
        &self.data[guard.frame_id]
    }

    /// Writes a page that is held to be written.
    pub fn set_page(&mut self, guard: &WriteGuard, page: Page)
        requires
            old(self).wf(),
            old(self).touched().contains(guard.frame()),
        ensures
            final(self).wf(),
            final(self).frames() == old(self).frames(),
            final(self).reliable() == old(self).reliable(),
            final(self).idle_medium(old(self)),
            final(self).room() == old(self).room(),
            final(self).pins() == old(self).pins(),
            final(self).touched() == old(self).touched(),
            old(self).at(guard.frame()) matches Some(id) && final(self).pages()
                == old(self).pages().insert(id, page@),
            forall|g: int|
                #![trigger final(self).at(g)]
                0 <= g < old(self).frames() ==> final(self).at(g) == old(self).at(g),
            forall|g: int|
                #![trigger final(self).bytes_at(g)]
                0 <= g < old(self).frames() ==> final(self).bytes_at(g) == if g == guard.frame() {
                    page@
                } else {
                    old(self).bytes_at(g)
                },
            old(self).whole() ==> final(self).whole(),
            final(self).same_table(old(self)),
            final(self).same_turn(old(self)),
            forall|g: int|
                0 <= g < old(self).frames() ==> #[trigger] final(self).dirty(g) == old(self).dirty(g),
    {
        let ghost f = guard.frame_id as int;
        proof {
            assert(self.touched@.contains(f));
        }
        self.data[guard.frame_id] = page;
        proof {
            assert(self.meta@[f].page_id is Some);
            let id = self.meta@[f].page_id->0;
            assert forall|g: int| 0 <= g < self.data@.len() && g != f implies self.data@[g] == old(
                self,
            ).data@[g] by {}
            assert(self.mapped());
            self.lemma_clean(old(self), f);
            assert(self.pages() =~= old(self).pages().insert(id, page@)) by {
                assert forall|j: PageId| j != id && self.cached(j) implies self.page_table@[j] != f by {
                    let g = self.page_table@[j] as int;
                    assert(self.meta@[g].page_id == Some(j));
                }
            }
            assert forall|j: PageId| #[trigger] self.stale(j) == old(self).stale(j) by {
                assert(self.cached(j) == old(self).cached(j));
            }
        }
    }

    /// Gives up a write guard.
    pub fn release_written(&mut self, guard: WriteGuard)
        requires
            old(self).wf(),
            old(self).touched().contains(guard.frame()),
        ensures
            final(self).wf(),
            final(self).let_go(old(self), guard.frame()),
            final(self).dirty(guard.frame()),
            final(self).touched() == old(self).touched().remove(guard.frame()),
    {
        proof {
            assert(self.touched@.contains(guard.frame()));
        }
        self.unpin(guard.frame_id, true);
    }

    /// No page number that the medium has yet to hand out was asked for in vain.
    pub open spec fn unspoilt(&self) -> bool {
        forall|id: PageId| #[trigger] self.stale(id) ==> self.pages().contains_key(id)
    }

    /// The medium has handed out page `id`; frames and replacer are as they were.
    pub open spec fn got(&self, o: &Self, id: PageId) -> bool {
        &&& self.records() == o.records()
        &&& self.asked() == o.asked().push(Asked::Allocate(Ok(id)))
        &&& self.frames() == o.frames()
        &&& self.pins() == o.pins()
        &&& self.touched() == o.touched()
        &&& self.same_frames(o)
        &&& self.same_table(o)
        &&& self.same_turn(o)
        &&& self.full() == o.full()
        &&& forall|n: nat| #[trigger] self.upcoming(n) == o.upcoming(n + 1)
    }

    /// Gets a page from the medium and holds it to be written.
    pub fn allocate(&mut self) -> (r: Result<(PageId, WriteGuard), BpmError<M::Error>>)
        requires
            old(self).wf(),
            old(self).held() < u32::MAX,
            old(self).room() > 0,
        ensures
            final(self).frames() == old(self).frames(),
            final(self).reliable() == old(self).reliable(),
            final(self).room() + 1 >= old(self).room(),
            r matches Ok((id, _)) ==> !old(self).pages().contains_key(id) && id != NULL_PAGE,
            r matches Err(BpmError::BufferFull) ==> old(self).full(),
            final(self).records() == old(self).records(),
            r matches Ok((id, _)) ==> {
                &&& id == old(self).upcoming(0)
                &&& forall|n: nat| #[trigger] final(self).upcoming(n) == old(self).upcoming(n + 1)
            },
            old(self).records() ==> {
                let n = old(self).asked().len() as int;
                &&& old(self).asked().is_prefix_of(final(self).asked())
                &&& final(self).asked().len() > n
                &&& final(self).asked()[n] matches Asked::Allocate(a) && match a {
                    Err(e) => {
                        &&& r matches Err(BpmError::Medium(x)) && x == e
                        &&& final(self).asked().len() == n + 1
                        &&& tally(final(self).asked()) == tally(old(self).asked())
                        &&& final(self).same_frames(old(self))
                        &&& final(self).same_table(old(self))
                        &&& final(self).same_turn(old(self))
                    },
                    Ok(id) => {
                        &&& id == old(self).upcoming(0)
                        &&& !old(self).pages().contains_key(id)
                        &&& r matches Ok((x, _)) ==> x == id
                        &&& tally(final(self).asked()).0 == tally(old(self).asked()).0 + 1
                        &&& tally(final(self).asked()).1 == tally(old(self).asked()).1
                        &&& exists|mid: Self| #[trigger] mid.got(old(self), id) && final(self).fetched(
                            &mid,
                            id,
                            match r {
                                Ok((_, g)) => Ok(g.frame()),
                                Err(e) => Err(e),
                            },
                        )
                        &&& old(self).full() && !old(self).tabled(id) ==> {
                            &&& r == Err::<(PageId, WriteGuard), BpmError<M::Error>>(BpmError::BufferFull)
                            &&& final(self).asked().len() == n + 1
                        }
                    },
                }
                &&& r matches Err(BpmError::Medium(e)) ==> final(self).blames(e)
            },
            old(self).unspoilt() ==> {
                &&& final(self).wf()
                &&& final(self).keeps(old(self))
                &&& forall|j: PageId| #[trigger]
                    old(self).pages().contains_key(j) ==> final(self).pages().contains_key(j)
                        && final(self).pages()[j] == old(self).pages()[j]
                &&& match r {
                    Ok((id, g)) => {
                        &&& final(self).pages().dom() == old(self).pages().dom().insert(id)
                        &&& final(self).brought(old(self), id, g.frame())
                        &&& old(self).whole() ==> final(self).whole()
                        &&& final(self).at(g.frame()) == Some(id)
                        &&& final(self).touched() == old(self).touched().insert(g.frame())
                    },
                    Err(e) => {
                        &&& final(self).pins() == old(self).pins()
                        &&& final(self).touched() == old(self).touched()
                        &&& e is Medium ==> !old(self).reliable()
                    },
                }
                &&& old(self).full() ==> r is Err
                &&& old(self).reliable() && !old(self).full() ==> r is Ok
            },
    {
        let id = match self.medium.allocate_page() {
            Ok(id) => id,
            Err(e) => {
                assert(self.pages() =~= old(self).pages());
                proof {
                    self.lemma_clean(old(self), -1);
                    lemma_tally_push(old(self).asked(), Asked::Allocate(Err(e)));
                    assert(self.same_table(old(self))) by {
                        assert forall|j: PageId| #[trigger] self.stale(j) == old(self).stale(j) by {
                            assert(self.cached(j) == old(self).cached(j));
                        }
                    }
                }
                return Err(BpmError::Medium(e));
            },
        };
        proof {
            lemma_tally_push(old(self).asked(), Asked::Allocate(Ok(id)));
            let before = old(self).medium.pages();
            let after = self.medium.pages();
            assert(!old(self).pages().contains_key(id));
            assert forall|j: PageId| before.contains_key(j) implies after.contains_key(j) && after[j]
                == before[j] by {
                assert(before.dom().contains(j));
                assert(after.dom().contains(j));
                assert(j != id);
                assert(after.remove(id)[j] == before.remove(id)[j]);
            }
            assert(after.dom().contains(id));
            assert(self.mapped());
            self.lemma_clean(old(self), -1);
            assert forall|j: PageId| #[trigger] self.stale(j) == old(self).stale(j) by {
                assert(self.cached(j) == old(self).cached(j));
            }
            if old(self).unspoilt() {
                assert(!self.stale(id));
                assert(!self.tabled(id)) by {
                    if self.tabled(id) {
                        assert(self.cached(id));
                        let g = self.page_table@[id] as int;
                        assert(old(self).meta@[g].page_id == Some(id));
                        assert(before.contains_key(id));
                    }
                }
            }
            assert(self.pages().dom() =~= old(self).pages().dom().insert(id));
            assert forall|j: PageId| #[trigger] old(self).pages().contains_key(j) implies self.pages().contains_key(
                j,
            ) && self.pages()[j] == old(self).pages()[j] by {
                assert(self.cached(j) == old(self).cached(j));
            }
            assert(self.wf());
        }
        let ghost mid = *self;
        proof {
            if old(self).records() {
                assert(mid.got(old(self), id));
            }
        }
        match self.write(id) {
            Ok(guard) => {
                proof {
                    if old(self).records() {
                        assert(mid.asked().is_prefix_of(self.asked()));
                        assert(self.asked()[old(self).asked().len() as int] == mid.asked().last());
                    }
                    assert forall|g: int|
                        old(self).unspoilt() && 0 <= g < old(self).frames() && old(self).pins()[g] > 0
                            implies self.at(g) == old(self).at(g) && self.bytes_at(g) == old(self).bytes_at(g) by {
                        assert(mid.at(g) == old(self).at(g));
                        assert(mid.bytes_at(g) == old(self).bytes_at(g));
                    }
                    assert(old(self).whole() ==> mid.whole()) by {
                        assert forall|j: PageId| old(self).whole() && #[trigger]
                            mid.page_table@.contains_key(j) implies mid.cached(j) by {
                            assert(old(self).cached(j));
                        }
                    }
                }
                Ok((id, guard))
            },
            Err(e) => {
                proof {
                    if old(self).records() {
                        assert(mid.asked().is_prefix_of(self.asked()));
                        assert(self.asked()[old(self).asked().len() as int] == mid.asked().last());
                    }
                    if old(self).records() && e is Medium {
                        assert(self.unsaved(&mid, id, e->Medium_0) || self.unread(&mid, id, e->Medium_0));
                        assert(self.blames(e->Medium_0));
                    }
                    assert forall|g: int|
                        old(self).unspoilt() && 0 <= g < old(self).frames() && old(self).pins()[g] > 0
                            implies self.at(g) == old(self).at(g) && self.bytes_at(g) == old(self).bytes_at(g) by {
                        assert(mid.at(g) == old(self).at(g));
                        assert(mid.bytes_at(g) == old(self).bytes_at(g));
                    }
                }
                Err(e)
            },
        }
    }

    /// Nobody holds the page to write to it, and bringing it in has not failed.
    pub open spec fn given_up(&self, id: PageId) -> bool {
        &&& !self.stale(id)
        &&& forall|f: int| #[trigger] self.touched().contains(f) ==> self.at(f) != Some(id)
    }

    /// Nobody holds the frame that is set aside for the page, if there is one, to write to it.
    pub open spec fn dropped(&self, id: PageId) -> bool {
        self.tabled(id) ==> !self.touched().contains(self.place(id))
    }

    /// Gives a page back to the medium. Where bringing it in had failed, the frame that was set
    /// aside for it is cleared, whatever page it holds by now.
    pub fn free(&mut self, id: PageId) -> (r: Result<(), BpmError<M::Error>>)
        requires
            old(self).wf(),
        ensures
            final(self).frames() == old(self).frames(),
            final(self).reliable() == old(self).reliable(),
            final(self).room() >= old(self).room(),
            final(self).pins() == old(self).pins(),
            final(self).touched() == old(self).touched(),
            forall|g: int|
                #![trigger final(self).bytes_at(g)]
                0 <= g < old(self).frames() ==> final(self).bytes_at(g) == old(self).bytes_at(g),
            old(self).reliable() ==> r is Ok,
            final(self).records() == old(self).records(),
            old(self).records() ==> final(self).asked() == old(self).asked().push(
                Asked::Free(
                    id,
                    match r {
                        Err(BpmError::Medium(e)) => Some(e),
                        _ => None,
                    },
                ),
            ),
            r matches Err(e) ==> {
                &&& e is Medium
                &&& final(self).wf()
                &&& final(self).pages() == old(self).pages()
                &&& old(self).whole() ==> final(self).whole()
                &&& forall|j: PageId| #[trigger] final(self).stale(j) == old(self).stale(j)
                &&& forall|g: int|
                    #![trigger final(self).at(g)]
                    0 <= g < old(self).frames() ==> final(self).at(g) == old(self).at(g)
            },
            old(self).records() && r is Ok ==> tally(final(self).asked()) == (
                tally(old(self).asked()).0,
                tally(old(self).asked()).1 + 1,
            ),
            r is Ok ==> {
                &&& !final(self).tabled(id)
                &&& !final(self).stale(id)
                &&& final(self).same_turn(old(self))
                &&& forall|j: PageId| j != id ==> #[trigger] final(self).tabled(j) == old(self).tabled(j)
                &&& forall|j: PageId| j != id && old(self).tabled(j) ==> #[trigger] final(self).place(j)
                    == old(self).place(j)
                &&& forall|g: int|
                    #![trigger final(self).at(g)]
                    #![trigger final(self).dirty(g)]
                    0 <= g < old(self).frames() ==> if old(self).tabled(id) && g == old(self).place(id) {
                        final(self).at(g) is None && !final(self).dirty(g)
                    } else {
                        final(self).at(g) == old(self).at(g) && final(self).dirty(g) == old(self).dirty(g)
                    }
            },
            r is Ok && old(self).dropped(id) ==> {
                &&& final(self).wf()
                &&& final(self).pages().dom() == old(self).pages().dom().remove(id)
                &&& forall|j: PageId|
                    j != id && #[trigger] old(self).pages().contains_key(j) && !(old(self).tabled(id)
                        && old(self).at(old(self).place(id)) == Some(j)) ==> final(self).pages()[j]
                        == old(self).pages()[j]
                &&& forall|j: PageId| #[trigger] final(self).stale(j) ==> old(self).stale(j) || (
                old(self).tabled(id) && old(self).at(old(self).place(id)) == Some(j))
            },
            r is Ok && old(self).given_up(id) ==> {
                &&& final(self).wf()
                &&& final(self).pages() == old(self).pages().remove(id)
                &&& old(self).whole() ==> final(self).whole()
                &&& forall|j: PageId| #[trigger] final(self).stale(j) ==> old(self).stale(j)
                &&& forall|g: int|
                    #![trigger final(self).at(g)]
                    0 <= g < old(self).frames() ==> final(self).at(g) == if old(self).at(g) == Some(id) {
                        None
                    } else {
                        old(self).at(g)
                    }
            },
    {
        broadcast use vstd::std_specs::hash::group_hash_axioms;

        match self.medium.free_page(id) {
            Ok(_) => {},
            Err(e) => {
                assert(self.pages() =~= old(self).pages());
                assert forall|j: PageId| #[trigger] self.stale(j) == old(self).stale(j) by {
                    assert(self.cached(j) == old(self).cached(j));
                }
                proof {
                    self.lemma_clean(old(self), -1);
                }
                return Err(BpmError::Medium(e));
            },
        }
        let hit = match self.page_table.get(&id) {
            Some(f) => Some(*f),
            None => None,
        };
        if let Some(frame_id) = hit {
            self.page_table.remove(&id);
            self.strange = Ghost(
                match self.meta@[frame_id as int].page_id {
                    Some(j) => self.strange@.remove(j).remove(id),
                    None => self.strange@.remove(id),
                },
            );
            self.meta[frame_id].page_id = None;
            self.meta[frame_id].dirty = false;
        }
        proof {
            lemma_tally_push(old(self).asked(), Asked::Free(id, None));
            if let Some(f) = hit {
                assert(self.meta@ =~= old(self).meta@.update(
                    f as int,
                    FrameMeta { page_id: None, dirty: false },
                ));
            }
            assert(self.page_table@ =~= old(self).page_table@.remove(id));
            if old(self).given_up(id) {
                assert(old(self).dropped(id)) by {
                    if old(self).tabled(id) {
                        assert(old(self).cached(id));
                        assert(old(self).at(old(self).place(id)) == Some(id));
                    }
                }
            }
            if old(self).dropped(id) {
                self.lemma_freed(old(self), id, hit);
                if old(self).given_up(id) {
                    assert(self.pages() =~= old(self).pages().remove(id)) by {
                        if old(self).tabled(id) {
                            assert(old(self).cached(id));
                        }
                        assert(forall|j: PageId| self.pages().dom().contains(j) == old(
                            self,
                        ).pages().dom().remove(id).contains(j));
                    }
                    if old(self).tabled(id) {
                        assert(old(self).cached(id));
                    }
                }
            }
        }
        Ok(())
    }

    /// What giving a page back leaves.
    proof fn lemma_freed(&self, o: &Self, id: PageId, hit: Option<usize>)
        requires
            o.wf(),
            o.dropped(id),
            self.shaped(),
            self.data == o.data,
            self.pin_counts == o.pin_counts,
            self.replacer == o.replacer,
            self.free_list == o.free_list,
            self.touched == o.touched,
            self.strange@ == (match hit {
                Some(f) => match o.meta@[f as int].page_id {
                    Some(j) => o.strange@.remove(j).remove(id),
                    None => o.strange@.remove(id),
                },
                None => o.strange@,
            }),
            self.medium.pages() == o.medium.pages().remove(id),
            self.page_table@ == o.page_table@.remove(id),
            hit == (if o.page_table@.contains_key(id) {
                Some(o.page_table@[id])
            } else {
                None
            }),
            self.meta@ == (match hit {
                Some(f) => o.meta@.update(f as int, FrameMeta { page_id: None, dirty: false }),
                None => o.meta@,
            }),
        ensures
            self.wf(),
            self.pages().dom() == o.pages().dom().remove(id),
            forall|j: PageId|
                j != id && #[trigger] o.pages().contains_key(j) && !(o.tabled(id) && o.at(o.place(id))
                    == Some(j)) ==> self.pages()[j] == o.pages()[j],
            o.whole() ==> self.whole(),
            forall|j: PageId| #[trigger] self.stale(j) ==> o.stale(j) || (o.tabled(id) && o.at(
                o.place(id),
            ) == Some(j)),
    {
        let at = match hit {
            Some(f) => f as int,
            None => -1,
        };
        assert forall|g: int| 0 <= g < self.data@.len() && g != at implies #[trigger] self.meta@[g]
            == o.meta@[g] by {}
        assert forall|g: int| 0 <= g < self.data@.len() && g != at implies #[trigger] self.at(g) == o.at(g) by {
            assert(self.meta@[g] == o.meta@[g]);
            if let Some(j) = o.meta@[g].page_id {
                assert(o.page_table@[j] == g);
                if hit is Some && o.meta@[at].page_id is Some {
                    assert(o.page_table@[o.meta@[at].page_id->0] == at);
                }
            }
        }
        assert(self.mapped()) by {
            assert forall|j: PageId| #[trigger] self.strange@.contains(j) implies self.page_table@.contains_key(
                j,
            ) && self.meta@[self.page_table@[j] as int].page_id == Some(j) by {
                assert(o.strange@.contains(j));
                let g = o.page_table@[j] as int;
                assert(o.meta@[g].page_id == Some(j));
                if j == id {
                    assert(hit is Some);
                }
                if g != at {
                    assert(self.meta@[g] == o.meta@[g]);
                }
            }
            assert forall|g: int| 0 <= g < self.data@.len() implies ((
            #[trigger] self.meta@[g]).page_id matches Some(id) ==> {
                &&& self.page_table@.contains_key(id)
                &&& self.page_table@[id] == g
                &&& self.strange@.contains(id) || self.medium.pages().contains_key(id)
            }) by {
                if self.meta@[g].page_id is Some {
                    assert(self.meta@[g] == o.meta@[g]);
                    if self.meta@[g].page_id == Some(id) {
                        assert(o.page_table@[id] == g);
                    }
                    assert(self.at(g) == o.at(g));
                }
            }
        }
        assert(self.spare());
        self.lemma_clean(o, match hit {
            Some(f) => f as int,
            None => -1,
        });
        assert(self.pinned()) by {
            assert forall|f: int| #[trigger] self.touched@.contains(f) implies {
                &&& 0 <= f < self.data@.len()
                &&& self.pin_counts@[f] > 0
                &&& self.at(f) is Some
            } by {
                assert(o.touched().contains(f));
            }
        }
        assert forall|j: PageId| j != id && !(o.tabled(id) && o.at(o.place(id)) == Some(j)) implies #[trigger] self.cached(
            j,
        ) == o.cached(j) by {
            if o.page_table@.contains_key(j) {
                let g = o.page_table@[j] as int;
                if g != at {
                    assert(self.meta@[g] == o.meta@[g]);
                }
            }
        }
        assert(self.pages().dom() =~= o.pages().dom().remove(id));
        assert forall|j: PageId| #[trigger] self.stale(j) implies o.stale(j) || (o.tabled(id) && o.at(
            o.place(id),
        ) == Some(j)) by {
            assert(self.cached(j) || !self.cached(j));
        }
        if o.whole() {
            assert forall|j: PageId| #[trigger] self.page_table@.contains_key(j) implies self.cached(j) by {
                assert(o.cached(j));
                assert(o.tabled(id) ==> o.cached(id));
            }
        }
    }
}

} // verus!
