//! Byte strings: their order, and writing one over a part of another.
use vstd::prelude::*;

verus! {

/// `a` comes before `b` in the order of dictionaries.
pub open spec fn bytes_lt(a: Seq<u8>, b: Seq<u8>) -> bool
    decreases a.len(),
{
    if b.len() == 0 {
        false
    } else if a.len() == 0 {
        true
    } else {
        a[0] < b[0] || (a[0] == b[0] && bytes_lt(a.drop_first(), b.drop_first()))
    }
}

/// `a` does not come after `b`.
pub open spec fn bytes_le(a: Seq<u8>, b: Seq<u8>) -> bool {
    !bytes_lt(b, a)
}

/// What makes `bytes_lt` a total order.
pub open spec fn bytes_order() -> bool {
    &&& forall|a: Seq<u8>| !#[trigger] bytes_lt(a, a)
    &&& forall|a: Seq<u8>, b: Seq<u8>| #[trigger] bytes_lt(a, b) ==> !bytes_lt(b, a)
    &&& forall|a: Seq<u8>, b: Seq<u8>| #[trigger] bytes_lt(a, b) || bytes_lt(b, a) || a == b
    &&& forall|a: Seq<u8>, b: Seq<u8>, c: Seq<u8>|
        #![trigger bytes_lt(a, b), bytes_lt(b, c)]
        bytes_lt(a, b) && bytes_lt(b, c) ==> bytes_lt(a, c)
    &&& forall|a: Seq<u8>, b: Seq<u8>, c: Seq<u8>|
        #![trigger bytes_lt(a, b), bytes_lt(c, b)]
        bytes_lt(a, b) && !bytes_lt(c, b) ==> bytes_lt(a, c)
    &&& forall|a: Seq<u8>, b: Seq<u8>, c: Seq<u8>|
        #![trigger bytes_lt(a, b), bytes_lt(a, c)]
        bytes_lt(a, b) && !bytes_lt(a, c) ==> bytes_lt(c, b)
}

pub proof fn lemma_irreflexive(a: Seq<u8>)
    ensures
        !bytes_lt(a, a),
    decreases a.len(),
{
    if a.len() > 0 {
        lemma_irreflexive(a.drop_first());
    }
}

proof fn lemma_total(a: Seq<u8>, b: Seq<u8>)
    ensures
        bytes_lt(a, b) || bytes_lt(b, a) || a == b,
    decreases a.len(),
{
    if a.len() > 0 && b.len() > 0 && a[0] == b[0] {
        lemma_total(a.drop_first(), b.drop_first());
        if a.drop_first() == b.drop_first() {
            assert forall|i: int| 0 <= i < a.len() implies a[i] == b[i] by {
                if i > 0 {
                    assert(a.drop_first()[i - 1] == b.drop_first()[i - 1]);
                }
            }
            assert(a.len() == a.drop_first().len() + 1);
            assert(a =~= b);
        }
    } else if a.len() == 0 && b.len() == 0 {
        assert(a =~= b);
    }
}

proof fn lemma_transitive(a: Seq<u8>, b: Seq<u8>, c: Seq<u8>)
    requires
        bytes_lt(a, b),
        bytes_lt(b, c),
    ensures
        bytes_lt(a, c),
    decreases a.len(),
{
    if a.len() > 0 && b.len() > 0 && c.len() > 0 && a[0] == b[0] && b[0] == c[0] {
        lemma_transitive(a.drop_first(), b.drop_first(), c.drop_first());
    }
}

/// Byte strings are totally ordered.
pub proof fn lemma_bytes_order()
    ensures
        bytes_order(),
{
    assert forall|a: Seq<u8>| !#[trigger] bytes_lt(a, a) by {
        lemma_irreflexive(a);
    }
    assert forall|a: Seq<u8>, b: Seq<u8>| #[trigger] bytes_lt(a, b) || bytes_lt(b, a) || a == b by {
        lemma_total(a, b);
    }
    assert forall|a: Seq<u8>, b: Seq<u8>, c: Seq<u8>| bytes_lt(a, b) && bytes_lt(b, c) implies bytes_lt(
        a,
        c,
    ) by {
        lemma_transitive(a, b, c);
    }
    assert forall|a: Seq<u8>, b: Seq<u8>| #[trigger] bytes_lt(a, b) implies !bytes_lt(b, a) by {
        if bytes_lt(b, a) {
            lemma_transitive(a, b, a);
        }
    }
    assert forall|a: Seq<u8>, b: Seq<u8>, c: Seq<u8>| bytes_lt(a, b) && !bytes_lt(c, b) implies bytes_lt(
        a,
        c,
    ) by {
        lemma_total(b, c);
    }
    assert forall|a: Seq<u8>, b: Seq<u8>, c: Seq<u8>| bytes_lt(a, b) && !bytes_lt(a, c) implies bytes_lt(
        c,
        b,
    ) by {
        lemma_total(a, c);
    }
}

/// How two byte strings stand to each other.
#[derive(Clone, Copy, Debug, PartialEq, Eq, Structural)]
pub enum Rank {
    Below,
    Same,
    Above,
}

/// Where `a` stands to `b`.
pub open spec fn rank_of(a: Seq<u8>, b: Seq<u8>) -> Rank {
    if a == b {
        Rank::Same
    } else if bytes_lt(a, b) {
        Rank::Below
    } else {
        Rank::Above
    }
}

/// Compares two byte strings.
pub(crate) fn compare(a: &[u8], b: &[u8]) -> (r: Rank)
    ensures
        r == rank_of(a@, b@),
        r == Rank::Same <==> a@ == b@,
        r == Rank::Below <==> exists|i: int|
            0 <= i <= a@.len() && i <= b@.len() && #[trigger] a@.take(i) == b@.take(i) && (if i
                == a@.len() {
                i < b@.len()
            } else {
                i < b@.len() && a@[i] < b@[i]
            }),
{
    let r = compare_bytes(a, b);
    proof {
        crate::plain::law_dictionary(a@, b@);
        crate::plain::law_rank(a@, b@);
    }
    r
}

/// Compares two byte strings, byte by byte.
fn compare_bytes(a: &[u8], b: &[u8]) -> (r: Rank)
    ensures
        r == rank_of(a@, b@),
{
    let mut i: usize = 0;
    proof {
        assert(a@.skip(0) =~= a@);
        assert(b@.skip(0) =~= b@);
    }
    while i < a.len() && i < b.len()
        invariant
            i <= a@.len(),
            i <= b@.len(),
            bytes_lt(a@, b@) == bytes_lt(a@.skip(i as int), b@.skip(i as int)),
            forall|j: int| 0 <= j < i ==> a@[j] == b@[j],
        decreases a@.len() - i,
    {
        let ghost x = a@.skip(i as int);
        let ghost y = b@.skip(i as int);
        proof {
            assert(x.drop_first() =~= a@.skip(i + 1));
            assert(y.drop_first() =~= b@.skip(i + 1));
        }
        if a[i] < b[i] {
            return Rank::Below;
        }
        if b[i] < a[i] {
            return Rank::Above;
        }
        i += 1;
    }
    if a.len() == b.len() {
        assert(a@ =~= b@);
        Rank::Same
    } else if a.len() < b.len() {
        Rank::Below
    } else {
        Rank::Above
    }
}

/// `s` with `b` written over it from `at` on.
pub open spec fn overlay(s: Seq<u8>, at: int, b: Seq<u8>) -> Seq<u8> {
    Seq::new(
        s.len(),
        |i: int|
            if at <= i < at + b.len() {
                b[i - at]
            } else {
                s[i]
            },
    )
}

/// `n` zero bytes.
pub open spec fn zeros(n: nat) -> Seq<u8> {
    Seq::new(n, |i: int| 0u8)
}

} // verus!
