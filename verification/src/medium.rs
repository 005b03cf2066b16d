//! Where pages are kept for good.
use crate::store::{NULL_PAGE, PAGE_SIZE, Page, PageId};
use std::collections::HashMap;
use vstd::prelude::*;

verus! {

/// One request to a medium, with what came of it.
pub enum Asked<E> {
    Read(PageId, Result<Seq<u8>, E>),
    Write(PageId, Seq<u8>, Option<E>),
    Allocate(Result<PageId, E>),
    Free(PageId, Option<E>),
}

/// What a read gave.
pub open spec fn bytes_of<E>(r: Result<Page, E>) -> Result<Seq<u8>, E> {
    match r {
        Ok(p) => Ok(p@),
        Err(e) => Err(e),
    }
}

/// The error, where there is one.
pub open spec fn error_of<T, E>(r: Result<T, E>) -> Option<E> {
    match r {
        Ok(_) => None,
        Err(e) => Some(e),
    }
}

/// How many pages were handed out and how many were taken back.
pub open spec fn tally<E>(log: Seq<Asked<E>>) -> (nat, nat)
    decreases log.len(),
{
    if log.len() == 0 {
        (0, 0)
    } else {
        let (a, b) = tally(log.drop_last());
        match log.last() {
            Asked::Allocate(Ok(_)) => (a + 1, b),
            Asked::Free(_, None) => (a, b + 1),
            _ => (a, b),
        }
    }
}

pub proof fn lemma_tally_push<E>(log: Seq<Asked<E>>, x: Asked<E>)
    ensures
        tally(log.push(x)) == (match x {
            Asked::Allocate(Ok(_)) => (tally(log).0 + 1, tally(log).1),
            Asked::Free(_, None) => (tally(log).0, tally(log).1 + 1),
            _ => tally(log),
        }),
{
    assert(log.push(x).drop_last() =~= log);
}

/// Something that keeps pages. What its methods promise is put in terms of the pages that it has;
/// a medium that does not say which it has, and how many it can still hand out, promises nothing.
pub trait Medium: Sized {
    type Error;

    /// The pages that were handed out and not given back.
    open spec fn pages(&self) -> Map<PageId, Seq<u8>> {
        Map::empty()
    }

    /// No request for such a page fails, and every request for another one does.
    open spec fn reliable(&self) -> bool {
        false
    }

    /// How many pages can be handed out before a number comes up that is still in use.
    open spec fn room(&self) -> nat {
        0
    }

    /// The medium remembers what it was asked.
    open spec fn records(&self) -> bool {
        false
    }

    /// What the medium was asked, the latest last.
    open spec fn asked(&self) -> Seq<Asked<Self::Error>> {
        Seq::empty()
    }

    /// The page that is handed out after `n` others, as long as none is given back.
    open spec fn upcoming(&self, n: nat) -> PageId {
        0
    }

    /// Reads a page.
    fn read_page(&mut self, id: PageId) -> (r: Result<Page, Self::Error>)
        ensures
            final(self).records() == old(self).records(),
            old(self).records() ==> final(self).asked() == old(self).asked().push(Asked::Read(id, bytes_of(r))),
            forall|n: nat| #[trigger] final(self).upcoming(n) == old(self).upcoming(n),
            final(self).pages() == old(self).pages(),
            final(self).room() == old(self).room(),
            final(self).reliable() == old(self).reliable(),
            old(self).pages().contains_key(id) ==> (r matches Ok(p) ==> p@ == old(self).pages()[id]),
            old(self).reliable() ==> (r is Ok <==> old(self).pages().contains_key(id)),
    ;

    /// Writes a page.
    fn write_page(&mut self, id: PageId, data: &Page) -> (r: Result<(), Self::Error>)
        ensures
            final(self).records() == old(self).records(),
            old(self).records() ==> final(self).asked() == old(self).asked().push(
                Asked::Write(id, data@, error_of(r)),
            ),
            old(self).pages().contains_key(id) ==> {
                &&& final(self).room() == old(self).room()
                &&& final(self).reliable() == old(self).reliable()
                &&& final(self).pages().dom() == old(self).pages().dom()
                &&& final(self).pages().remove(id) == old(self).pages().remove(id)
                &&& r is Ok ==> final(self).pages()[id] == data@
                &&& old(self).reliable() ==> r is Ok
                &&& forall|n: nat| #[trigger] final(self).upcoming(n) == old(self).upcoming(n)
            },
    ;

    /// Hands a page out.
    fn allocate_page(&mut self) -> (r: Result<PageId, Self::Error>)
        ensures
            final(self).records() == old(self).records(),
            old(self).records() ==> final(self).asked() == old(self).asked().push(Asked::Allocate(r)),
            final(self).reliable() == old(self).reliable(),
            old(self).reliable() ==> r is Ok,
            final(self).room() + 1 >= old(self).room(),
            match r {
                Ok(id) => old(self).room() > 0 ==> {
                    &&& final(self).pages().dom() == old(self).pages().dom().insert(id)
                    &&& final(self).pages().remove(id) == old(self).pages().remove(id)
                    &&& !old(self).pages().contains_key(id)
                    &&& id != NULL_PAGE
                    &&& id == old(self).upcoming(0)
                    &&& forall|n: nat| #[trigger] final(self).upcoming(n) == old(self).upcoming(n + 1)
                },
                Err(_) => final(self).pages() == old(self).pages(),
            },
    ;

    /// Takes a page back.
    fn free_page(&mut self, id: PageId) -> (r: Result<(), Self::Error>)
        ensures
            final(self).records() == old(self).records(),
            old(self).records() ==> final(self).asked() == old(self).asked().push(Asked::Free(id, error_of(r))),
            final(self).reliable() == old(self).reliable(),
            old(self).reliable() ==> r is Ok,
            final(self).room() >= old(self).room(),
            match r {
                Ok(_) => final(self).pages() == old(self).pages().remove(id),
                Err(_) => final(self).pages() == old(self).pages(),
            },
    ;
}

/// Keeps pages in memory.
pub struct InMemoryMedium {
    pages: HashMap<PageId, Page>,
    next_id: u32,
    asked: Ghost<Seq<Asked<InMemoryMediumError>>>,
}

/// A page was asked for that there is not.
#[derive(Debug)]
pub struct InMemoryMediumError(pub String);

/// The digits of a number.
pub open spec fn decimal(n: nat) -> Seq<char>
    decreases n,
{
    let digits = seq!['0', '1', '2', '3', '4', '5', '6', '7', '8', '9'];
    if n < 10 {
        seq![digits[n as int]]
    } else {
        decimal(n / 10).push(digits[(n % 10) as int])
    }
}

/// What is said of a page that there is not.
pub open spec fn not_found_text(id: PageId) -> Seq<char> {
    "page "@ + decimal(id as nat) + " not found"@
}

/// Calls `std::format!` on a page number. What is claimed of it is that it writes an unsigned
/// number as its decimal digits, without leading zeros, and the rest of the text as it stands.
#[verifier::external_body]
fn not_found(id: PageId) -> (r: String)
    ensures
        r@ == not_found_text(id),
{
    format!("page {id} not found")
}

/// The bytes of each page.
pub open spec fn page_bytes(m: Map<PageId, Page>) -> Map<PageId, Seq<u8>> {
    m.map_values(|p: Page| p@)
}

impl InMemoryMedium {
    pub closed spec fn next_id(&self) -> u32 {
        self.next_id
    }

    pub fn new() -> (r: Self)
        ensures
            r.pages() == Map::<PageId, Seq<u8>>::empty(),
            r.next_id() == 0,
            r.room() == 0x1_0000_0000,
            r.asked() == Seq::<Asked<InMemoryMediumError>>::empty(),
    {
        broadcast use vstd::std_specs::hash::group_hash_axioms;

        let r = Self { pages: HashMap::new(), next_id: 0, asked: Ghost(Seq::empty()) };
        assert(r.pages() =~= Map::<PageId, Seq<u8>>::empty());
        r
    }
}

impl Medium for InMemoryMedium {
    type Error = InMemoryMediumError;

    closed spec fn pages(&self) -> Map<PageId, Seq<u8>> {
        page_bytes(self.pages@)
    }

    open spec fn reliable(&self) -> bool {
        true
    }

    open spec fn room(&self) -> nat {
        if forall|id: PageId| #[trigger] self.pages().contains_key(id) ==> id < self.next_id() {
            (0x1_0000_0000 - self.next_id()) as nat
        } else {
            0
        }
    }

    open spec fn records(&self) -> bool {
        true
    }

    closed spec fn asked(&self) -> Seq<Asked<InMemoryMediumError>> {
        self.asked@
    }

    open spec fn upcoming(&self, n: nat) -> PageId {
        ((self.next_id() + n) % 0x1_0000_0000) as PageId
    }

    fn read_page(&mut self, id: PageId) -> (r: Result<Page, InMemoryMediumError>)
        ensures
            r matches Err(e) ==> e.0@ == not_found_text(id),
    {
        broadcast use vstd::std_specs::hash::group_hash_axioms;

        let r = match self.pages.get(&id) {
            Some(p) => Ok(p.clone()),
            None => Err(InMemoryMediumError(not_found(id))),
        };
        self.asked = Ghost(self.asked@.push(Asked::Read(id, bytes_of(r))));
        assert(self.pages() == old(self).pages());
        r
    }

    fn write_page(&mut self, id: PageId, data: &Page) -> (r: Result<(), InMemoryMediumError>)
        ensures
            r is Ok,
            final(self).pages() == old(self).pages().insert(id, data@),
            final(self).next_id() == old(self).next_id(),
    {
        broadcast use vstd::std_specs::hash::group_hash_axioms;

        let ghost m = self.pages@;
        self.pages.insert(id, data.clone());
        self.asked = Ghost(self.asked@.push(Asked::Write(id, data@, None)));
        proof {
            assert(self.pages() =~= page_bytes(m).insert(id, data@));
            if page_bytes(m).contains_key(id) {
                assert(self.pages().dom() =~= page_bytes(m).dom());
                assert(self.pages().remove(id) =~= page_bytes(m).remove(id));
                assert forall|x: PageId| #[trigger] self.pages().contains_key(x) == page_bytes(
                    m,
                ).contains_key(x) by {}
            }
        }
        Ok(())
    }

    fn allocate_page(&mut self) -> (r: Result<PageId, InMemoryMediumError>)
        ensures
            r matches Ok(id) && id == old(self).next_id() && final(self).pages()
                == old(self).pages().insert(id, Seq::new(PAGE_SIZE as nat, |i: int| 0u8)),
            final(self).next_id() == if old(self).next_id() == u32::MAX {
                0
            } else {
                old(self).next_id() + 1
            },
    {
        broadcast use vstd::std_specs::hash::group_hash_axioms;

        let ghost m = self.pages@;
        let id = self.next_id as PageId;
        self.next_id = self.next_id.wrapping_add(1);
        self.pages.insert(id, Page::default());
        self.asked = Ghost(self.asked@.push(Asked::Allocate(Ok(id))));
        proof {
            let zero = Seq::new(PAGE_SIZE as nat, |i: int| 0u8);
            assert(self.pages() =~= page_bytes(m).insert(id, zero));
            assert(self.pages().dom() =~= page_bytes(m).dom().insert(id));
            assert(self.pages().remove(id) =~= page_bytes(m).remove(id));
            if old(self).room() > 1 {
                assert forall|x: PageId| #[trigger] self.pages().contains_key(x) implies x
                    < self.next_id() by {
                    if x != id {
                        assert(old(self).pages().contains_key(x));
                    }
                }
            }
        }
        Ok(id)
    }

    fn free_page(&mut self, id: PageId) -> (r: Result<(), InMemoryMediumError>)
        ensures
            r is Ok,
            final(self).next_id() == old(self).next_id(),
    {
        broadcast use vstd::std_specs::hash::group_hash_axioms;

        let ghost m = self.pages@;
        self.pages.remove(&id);
        self.asked = Ghost(self.asked@.push(Asked::Free(id, None)));
        proof {
            assert(self.pages() =~= page_bytes(m).remove(id));
            if old(self).room() > 0 {
                assert forall|x: PageId| #[trigger] self.pages().contains_key(x) implies x
                    < self.next_id() by {
                    assert(old(self).pages().contains_key(x));
                }
            }
        }
        Ok(())
    }
}

} // verus!
