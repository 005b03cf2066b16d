//! Keys: byte strings, made from many kinds of values.
use crate::bytes::{compare, rank_of, Rank};
use std::cmp::Ordering;
use vstd::bytes::{
    spec_u128_to_le_bytes, spec_u16_to_le_bytes, spec_u32_to_le_bytes, spec_u64_to_le_bytes,
    u128_to_le_bytes, u16_to_le_bytes, u32_to_le_bytes, u64_to_le_bytes,
};
use vstd::prelude::*;
use vstd::slice::slice_to_vec;
use vstd::std_specs::cmp::PartialOrdSpecImpl;
use vstd::std_specs::convert::FromSpecImpl;
use vstd::utf8::{char_is_scalar, encode_scalar, encode_utf8};

verus! {

/// A key. Keys are ordered like words in a dictionary.
#[derive(Eq, PartialEq, Ord, Debug)]
pub struct Key(pub Vec<u8>);

impl Key {
    pub open spec fn view(&self) -> Seq<u8> {
        self.0@
    }

    pub fn as_bytes(&self) -> (r: &[u8])
        ensures
            r@ == self@,
    {
        self.0.as_slice()
    }

    pub fn len(&self) -> (r: usize)
        ensures
            r == self@.len(),
    {
        self.0.len()
    }
}

/// The answer of a comparison.
pub open spec fn ordering_of(r: Rank) -> Ordering {
    match r {
        Rank::Below => Ordering::Less,
        Rank::Same => Ordering::Equal,
        Rank::Above => Ordering::Greater,
    }
}

impl PartialOrd for Key {
    fn partial_cmp(&self, other: &Self) -> (r: Option<Ordering>) {
        let r = match compare(self.as_bytes(), other.as_bytes()) {
            Rank::Below => Ordering::Less,
            Rank::Same => Ordering::Equal,
            Rank::Above => Ordering::Greater,
        };
        Some(r)
    }
}

impl PartialOrdSpecImpl for Key {
    open spec fn obeys_partial_cmp_spec() -> bool {
        true
    }

    open spec fn partial_cmp_spec(&self, other: &Self) -> Option<Ordering> {
        Some(ordering_of(rank_of(self@, other@)))
    }
}

impl Clone for Key {
    fn clone(&self) -> (r: Self)
        ensures
            r@ == self@,
    {
        Key(slice_to_vec(self.0.as_slice()))
    }
}

impl From<Vec<u8>> for Key {
    fn from(v: Vec<u8>) -> (r: Self)
        ensures
            r@ == v@,
    {
        Key(v)
    }
}

impl FromSpecImpl<Vec<u8>> for Key {
    open spec fn obeys_from_spec() -> bool {
        true
    }

    open spec fn from_spec(v: Vec<u8>) -> Key {
        Key(v)
    }
}

impl From<&[u8]> for Key {
    fn from(v: &[u8]) -> (r: Self)
        ensures
            r@ == v@,
    {
        Key(slice_to_vec(v))
    }
}

impl FromSpecImpl<&[u8]> for Key {
    open spec fn obeys_from_spec() -> bool {
        false
    }

    open spec fn from_spec(v: &[u8]) -> Key {
        arbitrary()
    }
}

impl<const N: usize> From<[u8; N]> for Key {
    fn from(v: [u8; N]) -> (r: Self)
        ensures
            r@ == v@,
    {
        Key(slice_to_vec(v.as_slice()))
    }
}

impl<const N: usize> FromSpecImpl<[u8; N]> for Key {
    open spec fn obeys_from_spec() -> bool {
        false
    }

    open spec fn from_spec(v: [u8; N]) -> Key {
        arbitrary()
    }
}

impl<const N: usize> From<&[u8; N]> for Key {
    fn from(v: &[u8; N]) -> (r: Self)
        ensures
            r@ == v@,
    {
        Key(slice_to_vec(v.as_slice()))
    }
}

impl<const N: usize> FromSpecImpl<&[u8; N]> for Key {
    open spec fn obeys_from_spec() -> bool {
        false
    }

    open spec fn from_spec(v: &[u8; N]) -> Key {
        arbitrary()
    }
}

impl From<String> for Key {
    fn from(s: String) -> (r: Self)
        ensures
            r@ == encode_utf8(s@),
    {
        Key(slice_to_vec(s.as_str().as_bytes()))
    }
}

impl FromSpecImpl<String> for Key {
    open spec fn obeys_from_spec() -> bool {
        false
    }

    open spec fn from_spec(s: String) -> Key {
        arbitrary()
    }
}

impl From<&str> for Key {
    fn from(s: &str) -> (r: Self)
        ensures
            r@ == encode_utf8(s@),
    {
        Key(slice_to_vec(s.as_bytes()))
    }
}

impl FromSpecImpl<&str> for Key {
    open spec fn obeys_from_spec() -> bool {
        false
    }

    open spec fn from_spec(s: &str) -> Key {
        arbitrary()
    }
}

impl From<u8> for Key {
    fn from(v: u8) -> (r: Self)
        ensures
            r@ == seq![v],
    {
        Key(vec![v])
    }
}

impl FromSpecImpl<u8> for Key {
    open spec fn obeys_from_spec() -> bool {
        false
    }

    open spec fn from_spec(v: u8) -> Key {
        arbitrary()
    }
}

impl From<u16> for Key {
    fn from(v: u16) -> (r: Self)
        ensures
            r@ == spec_u16_to_le_bytes(v),
    {
        Key(u16_to_le_bytes(v))
    }
}

impl FromSpecImpl<u16> for Key {
    open spec fn obeys_from_spec() -> bool {
        false
    }

    open spec fn from_spec(v: u16) -> Key {
        arbitrary()
    }
}

impl From<u32> for Key {
    fn from(v: u32) -> (r: Self)
        ensures
            r@ == spec_u32_to_le_bytes(v),
    {
        Key(u32_to_le_bytes(v))
    }
}

impl FromSpecImpl<u32> for Key {
    open spec fn obeys_from_spec() -> bool {
        false
    }

    open spec fn from_spec(v: u32) -> Key {
        arbitrary()
    }
}

impl From<u64> for Key {
    fn from(v: u64) -> (r: Self)
        ensures
            r@ == spec_u64_to_le_bytes(v),
    {
        Key(u64_to_le_bytes(v))
    }
}

impl FromSpecImpl<u64> for Key {
    open spec fn obeys_from_spec() -> bool {
        false
    }

    open spec fn from_spec(v: u64) -> Key {
        arbitrary()
    }
}

impl From<u128> for Key {
    fn from(v: u128) -> (r: Self)
        ensures
            r@ == spec_u128_to_le_bytes(v),
    {
        Key(u128_to_le_bytes(v))
    }
}

impl FromSpecImpl<u128> for Key {
    open spec fn obeys_from_spec() -> bool {
        false
    }

    open spec fn from_spec(v: u128) -> Key {
        arbitrary()
    }
}

/// The bytes of a machine word, low byte first.
pub open spec fn word_bytes(v: usize) -> Seq<u8> {
    if usize::BITS == 64 {
        spec_u64_to_le_bytes(v as u64)
    } else {
        spec_u32_to_le_bytes(v as u32)
    }
}

impl From<usize> for Key {
    fn from(v: usize) -> (r: Self)
        ensures
            r@ == word_bytes(v),
    {
        if usize::BITS == 64 {
            Key(u64_to_le_bytes(v as u64))
        } else {
            Key(u32_to_le_bytes(v as u32))
        }
    }
}

impl FromSpecImpl<usize> for Key {
    open spec fn obeys_from_spec() -> bool {
        false
    }

    open spec fn from_spec(v: usize) -> Key {
        arbitrary()
    }
}

impl From<i8> for Key {
    fn from(v: i8) -> (r: Self)
        ensures
            r@ == seq![v as u8],
    {
        Key(vec![v as u8])
    }
}

impl FromSpecImpl<i8> for Key {
    open spec fn obeys_from_spec() -> bool {
        false
    }

    open spec fn from_spec(v: i8) -> Key {
        arbitrary()
    }
}

impl From<i16> for Key {
    fn from(v: i16) -> (r: Self)
        ensures
            r@ == spec_u16_to_le_bytes(v as u16),
    {
        Key(u16_to_le_bytes(v as u16))
    }
}

impl FromSpecImpl<i16> for Key {
    open spec fn obeys_from_spec() -> bool {
        false
    }

    open spec fn from_spec(v: i16) -> Key {
        arbitrary()
    }
}

impl From<i32> for Key {
    fn from(v: i32) -> (r: Self)
        ensures
            r@ == spec_u32_to_le_bytes(v as u32),
    {
        Key(u32_to_le_bytes(v as u32))
    }
}

impl FromSpecImpl<i32> for Key {
    open spec fn obeys_from_spec() -> bool {
        false
    }

    open spec fn from_spec(v: i32) -> Key {
        arbitrary()
    }
}

impl From<i64> for Key {
    fn from(v: i64) -> (r: Self)
        ensures
            r@ == spec_u64_to_le_bytes(v as u64),
    {
        Key(u64_to_le_bytes(v as u64))
    }
}

impl FromSpecImpl<i64> for Key {
    open spec fn obeys_from_spec() -> bool {
        false
    }

    open spec fn from_spec(v: i64) -> Key {
        arbitrary()
    }
}

impl From<i128> for Key {
    fn from(v: i128) -> (r: Self)
        ensures
            r@ == spec_u128_to_le_bytes(v as u128),
    {
        Key(u128_to_le_bytes(v as u128))
    }
}

impl FromSpecImpl<i128> for Key {
    open spec fn obeys_from_spec() -> bool {
        false
    }

    open spec fn from_spec(v: i128) -> Key {
        arbitrary()
    }
}

impl From<isize> for Key {
    fn from(v: isize) -> (r: Self)
        ensures
            r@ == word_bytes(v as usize),
    {
        Key::from(v as usize)
    }
}

impl FromSpecImpl<isize> for Key {
    open spec fn obeys_from_spec() -> bool {
        false
    }

    open spec fn from_spec(v: isize) -> Key {
        arbitrary()
    }
}

impl From<bool> for Key {
    fn from(v: bool) -> (r: Self)
        ensures
            r@ == seq![if v {
                1u8
            } else {
                0u8
            }],
    {
        Key(
            vec![if v {
                1u8
            } else {
                0u8
            }],
        )
    }
}

impl FromSpecImpl<bool> for Key {
    open spec fn obeys_from_spec() -> bool {
        false
    }

    open spec fn from_spec(v: bool) -> Key {
        arbitrary()
    }
}

impl From<char> for Key {
    fn from(c: char) -> (r: Self)
        ensures
            r@ == encode_utf8(seq![c]),
    {
        let s = c as u32;
        let v: Vec<u8> = if s <= 0x7f {
            vec![(s & 0x7f) as u8]
        } else if s <= 0x7ff {
            vec![0xc0 | ((s >> 6) & 0x1f) as u8, 0x80 | (s & 0x3f) as u8]
        } else if s <= 0xffff {
            vec![
                0xe0 | ((s >> 12) & 0x0f) as u8,
                0x80 | ((s >> 6) & 0x3f) as u8,
                0x80 | (s & 0x3f) as u8,
            ]
        } else {
            vec![
                0xf0 | ((s >> 18) & 0x07) as u8,
                0x80 | ((s >> 12) & 0x3f) as u8,
                0x80 | ((s >> 6) & 0x3f) as u8,
                0x80 | (s & 0x3f) as u8,
            ]
        };
        proof {
            char_is_scalar(c);
            assert(v@ =~= encode_scalar(s));
            assert(seq![c].drop_first() =~= Seq::empty());
            assert(encode_utf8(seq![c].drop_first()) =~= Seq::empty());
            assert(encode_utf8(seq![c]) =~= encode_scalar(c as u32));
        }
        Key(v)
    }
}

impl FromSpecImpl<char> for Key {
    open spec fn obeys_from_spec() -> bool {
        false
    }

    open spec fn from_spec(c: char) -> Key {
        arbitrary()
    }
}

} // verus!
