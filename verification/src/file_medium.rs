//! What keeping pages in a file decides: where a page stands, how it is put together from what
//! the file gives, and which page is handed out next.
use crate::bytes::zeros;
use crate::store::{PAGE_SIZE, Page, PageId};
use vstd::prelude::*;
use vstd::std_specs::convert::FromSpecImpl;

verus! {

/// `std::io::Error`, of which nothing is claimed.
#[verifier::external_type_specification]
#[verifier::external_body]
pub struct ExIoError(std::io::Error);

#[derive(Debug)]
pub enum FileMediumError {
    Io(std::io::Error),
    /// The file ended within a page.
    ShortRead { expected: usize, got: usize },
}

impl From<std::io::Error> for FileMediumError {
    fn from(e: std::io::Error) -> (r: Self) {
        FileMediumError::Io(e)
    }
}

impl FromSpecImpl<std::io::Error> for FileMediumError {
    open spec fn obeys_from_spec() -> bool {
        true
    }

    open spec fn from_spec(e: std::io::Error) -> Self {
        FileMediumError::Io(e)
    }
}

/// Where a page begins in the file.
pub open spec fn offset_of(id: PageId) -> int {
    id * PAGE_SIZE
}

/// Where a page begins in the file.
pub fn offset(id: PageId) -> (r: u64)
    requires
        offset_of(id) <= u64::MAX,
    ensures
        r == offset_of(id),
        r == 8192 * id,
{
    id * PAGE_SIZE as u64
}

/// No two pages share a byte of the file.
pub proof fn law_apart(a: PageId, b: PageId)
    requires
        a != b,
    ensures
        offset_of(a) + PAGE_SIZE <= offset_of(b) || offset_of(b) + PAGE_SIZE <= offset_of(a),
{
}

/// A page that is being read.
pub struct PageRead {
    page: Page,
    total: usize,
}

impl PageRead {
    /// The bytes that came so far.
    pub closed spec fn taken(&self) -> Seq<u8> {
        self.page@.take(self.total as int)
    }

    pub closed spec fn wf(&self) -> bool {
        self.total <= PAGE_SIZE
    }

    /// A page of which nothing was read.
    pub fn start() -> (r: Self)
        ensures
            r.wf(),
            r.taken() == Seq::<u8>::empty(),
    {
        let r = PageRead { page: Page::default(), total: 0 };
        assert(r.taken() =~= Seq::<u8>::empty());
        r
    }

    /// How many bytes the page lacks.
    pub fn lacks(&self) -> (r: usize)
        requires
            self.wf(),
        ensures
            r == PAGE_SIZE - self.taken().len(),
    {
        PAGE_SIZE - self.total
    }

    /// Takes what one read of the file gave. Nothing means that the file has ended.
    pub fn take(&mut self, chunk: &[u8]) -> (r: Result<(), FileMediumError>)
        requires
            old(self).wf(),
            0 < PAGE_SIZE - old(self).taken().len(),
            chunk@.len() <= PAGE_SIZE - old(self).taken().len(),
        ensures
            final(self).wf(),
            final(self).taken() == old(self).taken() + chunk@,
            r == (if chunk@.len() == 0 {
                Err::<(), FileMediumError>(
                    FileMediumError::ShortRead {
                        expected: PAGE_SIZE,
                        got: old(self).taken().len() as usize,
                    },
                )
            } else {
                Ok::<(), FileMediumError>(())
            }),
    {
        let n: usize = chunk.len();
        if n == 0 {
            proof {
                assert(self.taken() + chunk@ =~= self.taken());
            }
            return Err(FileMediumError::ShortRead { expected: PAGE_SIZE, got: self.total });
        }
        let start: usize = self.total;
        let mut i: usize = 0;
        while i < n
            invariant
                i <= n,
                n == chunk@.len(),
                self.total == start,
                start == old(self).taken().len(),
                start + n <= PAGE_SIZE,
                self.page@.take(start + i) == old(self).taken() + chunk@.take(i as int),
            decreases n - i,
        {
            let ghost before = self.page@;
            self.page.0[start + i] = chunk[i];
            i += 1;
            proof {
                assert(self.page@.take(start + i) =~= before.take(start + i - 1).push(chunk@[i - 1]));
                assert(chunk@.take(i as int) =~= chunk@.take(i - 1).push(chunk@[i - 1]));
                assert(old(self).taken() + chunk@.take(i as int) =~= (old(self).taken() + chunk@.take(
                    i - 1,
                )).push(chunk@[i - 1]));
            }
        }
        self.total = start + n;
        assert(chunk@.take(n as int) =~= chunk@);
        Ok(())
    }

    /// The page, when all of it was read.
    pub fn finish(self) -> (r: Page)
        requires
            self.wf(),
            self.taken().len() == PAGE_SIZE,
        ensures
            r@ == self.taken(),
    {
        assert(self.page@.take(PAGE_SIZE as int) =~= self.page@);
        self.page
    }
}

/// The bytes of a page that is new to the file.
pub fn blank() -> (r: Page)
    ensures
        r@ == zeros(PAGE_SIZE as nat),
{
    let r = Page::default();
    assert(r@ =~= zeros(PAGE_SIZE as nat));
    r
}

/// A page that is handed out.
#[derive(Clone, Copy, Debug, PartialEq, Eq, Structural)]
pub enum Slot {
    /// One that was given back before.
    Reused(PageId),
    /// One by which the file has to grow.
    Grown(PageId),
}

impl Slot {
    pub open spec fn id(self) -> PageId {
        match self {
            Slot::Reused(id) => id,
            Slot::Grown(id) => id,
        }
    }
}

/// The pages of a file that are free.
pub struct PageNumbers {
    next_id: u64,
    free_list: Vec<PageId>,
}

impl PageNumbers {
    /// The page by which the file grows next.
    pub closed spec fn next_id(&self) -> u64 {
        self.next_id
    }

    /// The pages that were given back, the latest last.
    pub closed spec fn free_list(&self) -> Seq<PageId> {
        self.free_list@
    }

    /// No page was given back twice, nor one that the file has not grown by.
    pub open spec fn tidy(&self) -> bool {
        let f = self.free_list();
        &&& f.no_duplicates()
        &&& forall|i: int| 0 <= i < f.len() ==> #[trigger] f[i] < self.next_id()
    }

    /// The page is in use.
    pub open spec fn in_use(&self, id: PageId) -> bool {
        id < self.next_id() && !self.free_list().contains(id)
    }

    /// A file with some pages, all of them in use.
    pub fn new(page_count_hint: u64) -> (r: Self)
        ensures
            r.next_id() == page_count_hint,
            r.free_list() == Seq::<PageId>::empty(),
            r.tidy(),
    {
        PageNumbers { next_id: page_count_hint, free_list: Vec::new() }
    }

    /// Hands a page out: the one that was given back last, or else one by which the file grows.
    pub fn allocate(&mut self) -> (r: Slot)
        ensures
            handed_out(*old(self), *final(self), r),
    {
        match self.free_list.pop() {
            Some(id) => Slot::Reused(id),
            None => {
                let id: u64 = self.next_id;
                self.next_id = id.wrapping_add(1);
                Slot::Grown(id)
            },
        }
    }

    /// Takes a page back.
    pub fn free(&mut self, id: PageId)
        ensures
            final(self).next_id() == old(self).next_id(),
            final(self).free_list() == old(self).free_list().push(id),
    {
        self.free_list.push(id);
    }
}

/// A page that is handed out was not in use, and is in use then; no other page begins or ceases
/// to be. `b` is `a` after `PageNumbers::allocate`.
pub proof fn law_allocate(a: PageNumbers, b: PageNumbers, slot: Slot, j: PageId)
    requires
        a.tidy(),
        a.next_id() < u64::MAX,
        handed_out(a, b, slot),
    ensures
        b.tidy(),
        !a.in_use(slot.id()),
        b.in_use(j) <==> a.in_use(j) || j == slot.id(),
{
    let id = slot.id();
    let f = a.free_list();
    let g = b.free_list();
    if f.len() > 0 {
        assert(f[f.len() - 1] == id);
        if g.contains(id) {
            let i = g.index_of(id);
            assert(f[i] == id);
        }
        if f.contains(j) && j != id {
            let i = f.index_of(j);
            assert(g[i] == j);
        }
        if g.contains(j) {
            let i = g.index_of(j);
            assert(f[i] == j);
        }
    }
}

/// `b` is `a` after `PageNumbers::allocate` handed `slot` out.
pub open spec fn handed_out(a: PageNumbers, b: PageNumbers, slot: Slot) -> bool {
    &&& a.free_list().len() > 0 ==> {
        &&& slot == Slot::Reused(a.free_list().last())
        &&& b.free_list() == a.free_list().drop_last()
        &&& b.next_id() == a.next_id()
    }
    &&& a.free_list().len() == 0 ==> {
        &&& slot == Slot::Grown(a.next_id())
        &&& b.free_list() == a.free_list()
        &&& b.next_id() == if a.next_id() == u64::MAX {
            0
        } else {
            a.next_id() + 1
        }
    }
}

/// Until a page is given back the pages of a file are handed out in order, from the hint on.
/// `states[i + 1]` is `states[i]` after `PageNumbers::allocate` handed `slots[i]` out.
pub proof fn law_rise(states: Seq<PageNumbers>, slots: Seq<Slot>, hint: u64, n: int)
    requires
        states.len() == slots.len() + 1,
        states[0].next_id() == hint,
        states[0].free_list().len() == 0,
        forall|i: int|
            0 <= i < slots.len() ==> handed_out(states[i], states[i + 1], #[trigger] slots[i]),
        0 <= n <= slots.len(),
        hint + n <= u64::MAX,
    ensures
        states[n].next_id() == hint + n,
        states[n].free_list().len() == 0,
        forall|i: int| 0 <= i < n ==> #[trigger] slots[i] == Slot::Grown((hint + i) as u64),
    decreases n,
{
    if n > 0 {
        law_rise(states, slots, hint, n - 1);
        assert(handed_out(states[n - 1], states[n - 1 + 1], slots[n - 1]));
        assert forall|i: int| 0 <= i < n implies #[trigger] slots[i] == Slot::Grown(
            (hint + i) as u64,
        ) by {}
    }
}

/// A page that was in use and is taken back is in use no more; no other page begins or ceases to
/// be. `b` is `a` after `PageNumbers::free`.
pub proof fn law_free(a: PageNumbers, b: PageNumbers, id: PageId, j: PageId)
    requires
        a.tidy(),
        a.in_use(id),
        b.next_id() == a.next_id(),
        b.free_list() == a.free_list().push(id),
    ensures
        b.tidy(),
        b.in_use(j) <==> a.in_use(j) && j != id,
{
    let f = a.free_list();
    let g = b.free_list();
    assert(g[f.len() as int] == id);
    if f.contains(j) {
        let i = f.index_of(j);
        assert(g[i] == j);
    }
    if g.contains(j) && j != id {
        let i = g.index_of(j);
        assert(f[i] == j);
    }
}

} // verus!
