//! Pages.
use vstd::prelude::*;
use vstd::std_specs::convert::FromSpecImpl;

verus! {

pub type PageId = u64;

/// The page that is none.
pub const NULL_PAGE: PageId = 0xffff_ffff_ffff_ffff;

pub const PAGE_SIZE: usize = 8192;

/// What a page holds.
#[derive(Clone, Copy, Debug, PartialEq, Eq, Structural)]
pub enum PageType {
    Leaf,
    Internal,
}

/// The byte stands for a type.
pub open spec fn typed(b: u8) -> bool {
    b == 1 || b == 2
}

/// The type that a byte stands for.
pub open spec fn type_of(b: u8) -> PageType {
    if b == 1 {
        PageType::Leaf
    } else {
        PageType::Internal
    }
}

impl PageType {
    /// The type that the first byte of a page stands for.
    pub fn from_byte(value: u8) -> (r: Self)
        requires
            typed(value),
        ensures
            r == type_of(value),
    {
        if value == 1 {
            PageType::Leaf
        } else {
            PageType::Internal
        }
    }
}

/// The byte that stands for a type.
pub open spec fn type_byte(t: PageType) -> u8 {
    match t {
        PageType::Leaf => 1,
        PageType::Internal => 2,
    }
}

impl From<PageType> for u8 {
    fn from(value: PageType) -> (r: u8) {
        match value {
            PageType::Leaf => 1,
            PageType::Internal => 2,
        }
    }
}

impl FromSpecImpl<PageType> for u8 {
    open spec fn obeys_from_spec() -> bool {
        true
    }

    open spec fn from_spec(value: PageType) -> u8 {
        type_byte(value)
    }
}

pub struct Page(pub [u8; PAGE_SIZE]);

impl Page {
    pub open spec fn view(&self) -> Seq<u8> {
        self.0@
    }
}

impl Clone for Page {
    fn clone(&self) -> (r: Self)
        ensures
            r@ == self@,
    {
        Page(self.0)
    }
}

impl Default for Page {
    fn default() -> (r: Self)
        ensures
            r@ == Seq::new(PAGE_SIZE as nat, |i: int| 0u8),
    {
        let r = Page([0u8; PAGE_SIZE]);
        assert(r@ =~= Seq::new(PAGE_SIZE as nat, |i: int| 0u8));
        r
    }
}

impl std::ops::Deref for Page {
    type Target = [u8];

    fn deref(&self) -> (r: &[u8])
        ensures
            r@ == self@,
    {
        self.0.as_slice()
    }
}

} // verus!
