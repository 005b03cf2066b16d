//! What the terms of the contracts come to, said in indices, bytes and numbers alone.
use crate::bytes::{bytes_le, bytes_lt, overlay, rank_of, zeros, Rank};
use crate::clock::Dial;
use crate::file_medium::{handed_out, offset_of, PageNumbers, Slot};
use crate::medium::{bytes_of, decimal, error_of, not_found_text};
use crate::store::{NULL_PAGE, PAGE_SIZE, Page, PageId};
use vstd::prelude::*;

verus! {

// Byte strings ---------------------------------------------------------------------------

/// Byte strings are ordered like words in a dictionary: at the first place where two differ the
/// smaller byte comes first, and a word comes before those that it begins.
pub proof fn law_dictionary(a: Seq<u8>, b: Seq<u8>)
    ensures
        bytes_lt(a, b) <==> exists|i: int|
            0 <= i <= a.len() && i <= b.len() && #[trigger] a.take(i) == b.take(i) && (if i == a.len() {
                i < b.len()
            } else {
                i < b.len() && a[i] < b[i]
            }),
        bytes_le(a, b) <==> a == b || bytes_lt(a, b),
{
    lemma_dictionary(a, b);
    crate::bytes::lemma_bytes_order();
    assert(bytes_lt(a, b) || bytes_lt(b, a) || a == b);
}

proof fn lemma_dictionary(a: Seq<u8>, b: Seq<u8>)
    ensures
        bytes_lt(a, b) <==> exists|i: int|
            0 <= i <= a.len() && i <= b.len() && #[trigger] a.take(i) == b.take(i) && (if i == a.len() {
                i < b.len()
            } else {
                i < b.len() && a[i] < b[i]
            }),
    decreases a.len(),
{
    assert(a.take(0) =~= b.take(0));
    if a.len() > 0 && b.len() > 0 {
        let x = a.drop_first();
        let y = b.drop_first();
        lemma_dictionary(x, y);
        if a[0] == b[0] && bytes_lt(x, y) {
            let i = choose|i: int|
                0 <= i <= x.len() && i <= y.len() && #[trigger] x.take(i) == y.take(i) && (if i
                    == x.len() {
                    i < y.len()
                } else {
                    i < y.len() && x[i] < y[i]
                });
            assert forall|j: int| 0 <= j < i + 1 implies a[j] == b[j] by {
                if j > 0 {
                    assert(x.take(i)[j - 1] == y.take(i)[j - 1]);
                }
            }
            assert(a.take(i + 1) =~= b.take(i + 1));
        }
        if exists|i: int|
            0 < i <= a.len() && i <= b.len() && #[trigger] a.take(i) == b.take(i) && (if i == a.len() {
                i < b.len()
            } else {
                i < b.len() && a[i] < b[i]
            }) {
            let i = choose|i: int|
                0 < i <= a.len() && i <= b.len() && #[trigger] a.take(i) == b.take(i) && (if i
                    == a.len() {
                    i < b.len()
                } else {
                    i < b.len() && a[i] < b[i]
                });
            assert forall|j: int| 0 <= j < i implies a[j] == b[j] by {
                assert(a.take(i)[j] == b.take(i)[j]);
            }
            assert(x.take(i - 1) =~= y.take(i - 1));
        }
    }
}

/// A common beginning does not change how two byte strings stand to each other.
pub proof fn law_common_beginning(p: Seq<u8>, a: Seq<u8>, b: Seq<u8>)
    ensures
        bytes_lt(p + a, p + b) == bytes_lt(a, b),
        rank_of(p + a, p + b) == rank_of(a, b),
    decreases p.len(),
{
    if p.len() > 0 {
        let q = p.drop_first();
        law_common_beginning(q, a, b);
        assert((p + a).drop_first() =~= q + a);
        assert((p + b).drop_first() =~= q + b);
        assert((p + a)[0] == p[0] && (p + b)[0] == p[0]);
        if p + a == p + b {
            assert(q + a == q + b);
        }
        if q + a == q + b {
            assert(p + a =~= seq![p[0]] + (q + a));
            assert(p + b =~= seq![p[0]] + (q + b));
        }
    } else {
        assert(p + a =~= a);
        assert(p + b =~= b);
    }
}

/// The answer of a comparison says which of two byte strings comes first.
pub proof fn law_rank(a: Seq<u8>, b: Seq<u8>)
    ensures
        rank_of(a, b) == Rank::Same <==> a == b,
        rank_of(a, b) == Rank::Below <==> bytes_lt(a, b),
        rank_of(a, b) == Rank::Above <==> bytes_lt(b, a),
{
    crate::bytes::lemma_bytes_order();
    assert(bytes_lt(a, b) || bytes_lt(b, a) || a == b);
}

/// Writing over a part of a byte string changes that part and nothing else.
pub proof fn law_overlay(s: Seq<u8>, at: int, b: Seq<u8>)
    requires
        0 <= at,
        at + b.len() <= s.len(),
    ensures
        overlay(s, at, b) == s.take(at) + b + s.skip(at + b.len()),
        forall|n: nat| (#[trigger] zeros(n)).len() == n,
        forall|n: nat, i: int| 0 <= i < n ==> #[trigger] zeros(n)[i] == 0,
{
    assert(overlay(s, at, b) =~= s.take(at) + b + s.skip(at + b.len()));
}

// Files ----------------------------------------------------------------------------------

/// The pages of a file lie one behind another, without gaps, from its beginning on: every byte of
/// the file belongs to the page whose number is its place divided by the size of a page.
pub proof fn law_offset(id: PageId, at: nat)
    ensures
        offset_of(0) == 0,
        id < u64::MAX ==> offset_of((id + 1) as u64) == offset_of(id) + 8192,
        offset_of(id) == 8192 * id,
        offset_of(id) <= at < offset_of(id) + 8192 <==> id == at / 8192,
{
    assert(offset_of(id) <= at < offset_of(id) + 8192 <==> id == at / 8192) by (nonlinear_arith)
        requires
            offset_of(id) == 8192 * id,
    ;
}

/// A page is 8192 bytes, and the page that is none has the highest number.
pub proof fn law_sizes()
    ensures
        PAGE_SIZE == 8192,
        NULL_PAGE == u64::MAX,
{
}

/// A page that is given back is the next one to be handed out, and then nothing has changed: `b` is
/// `a` after `PageNumbers::free`, and `c` is `b` after `PageNumbers::allocate` handed `slot` out.
pub proof fn law_free_allocate(
    a: PageNumbers,
    b: PageNumbers,
    c: PageNumbers,
    id: PageId,
    slot: Slot,
)
    requires
        b.next_id() == a.next_id(),
        b.free_list() == a.free_list().push(id),
        handed_out(b, c, slot),
    ensures
        slot == Slot::Reused(id),
        c.next_id() == a.next_id(),
        c.free_list() == a.free_list(),
{
    assert(b.free_list().drop_last() =~= a.free_list());
}

/// A file grows by the page that follows its last one, and only where no page is free: `b` is `a`
/// after `PageNumbers::allocate` handed `slot` out.
pub proof fn law_growth(a: PageNumbers, b: PageNumbers, slot: Slot)
    requires
        handed_out(a, b, slot),
        a.next_id() < u64::MAX,
    ensures
        slot is Grown <==> a.free_list().len() == 0,
        slot matches Slot::Grown(id) ==> id == a.next_id() && b.next_id() == id + 1 && b.free_list()
            == a.free_list(),
        slot matches Slot::Reused(id) ==> {
            &&& b.free_list().push(id) == a.free_list()
            &&& b.next_id() == a.next_id()
        },
{
    if a.free_list().len() > 0 {
        assert(a.free_list().drop_last().push(a.free_list().last()) =~= a.free_list());
    }
}

/// A number is written in decimal digits, the highest first, and does not begin with a zero unless
/// it is zero.
pub proof fn law_decimal(n: nat)
    ensures
        decimal(n).len() >= 1,
        forall|i: int| 0 <= i < decimal(n).len() ==> '0' <= #[trigger] decimal(n)[i] <= '9',
        decimal(n).fold_left(0int, |x: int, c: char| 10 * x + (c as int - 48)) == n,
        n > 0 ==> decimal(n)[0] != '0',
        n < 10 ==> decimal(n).len() == 1,
    decreases n,
{
    let f = |x: int, c: char| 10 * x + (c as int - 48);
    let digits = seq!['0', '1', '2', '3', '4', '5', '6', '7', '8', '9'];
    assert forall|d: int| 0 <= d < 10 implies '0' <= #[trigger] digits[d] <= '9' && digits[d] as int
        == 48 + d by {}
    let s = decimal(n);
    if n >= 10 {
        law_decimal(n / 10);
        let d = (n % 10) as int;
        assert(s == decimal(n / 10).push(digits[d]));
        assert(s.drop_last() =~= decimal(n / 10));
        assert(s.last() == digits[d]);
        assert(s.fold_left(0int, f) == f(s.drop_last().fold_left(0int, f), s.last()));
        assert(s[0] == decimal(n / 10)[0]);
    } else {
        assert(s == seq![digits[n as int]]);
        assert(s.drop_last() =~= Seq::<char>::empty());
        assert(s.drop_last().fold_left(0int, f) == 0);
        assert(s.fold_left(0int, f) == f(0, digits[n as int]));
    }
}

/// What a read gave, and whether a request failed.
pub proof fn law_replies<E>(p: Page, e: E)
    ensures
        bytes_of(Ok::<Page, E>(p)) == Ok::<Seq<u8>, E>(p.0@),
        bytes_of(Err::<Page, E>(e)) == Err::<Seq<u8>, E>(e),
        error_of(Ok::<(), E>(())) == None::<E>,
        error_of(Err::<(), E>(e)) == Some(e),
{
}

/// What is said of a page that there is not names its number.
pub proof fn law_not_found(id: PageId)
    ensures
        not_found_text(id) == "page "@ + decimal(id as nat) + " not found"@,
{
}

// The clock ------------------------------------------------------------------------------

/// How the hand goes round: a pinned frame is passed over; one that was used loses its mark and is
/// passed over; the first one that is neither is taken and pinned, and the hand stands behind it.
pub proof fn law_hand(d: Dial, f: int)
    requires
        d.reference.len() == d.pinned.len(),
        0 <= d.hand < d.pinned.len(),
    ensures
        d.takes(f) ==> 0 <= f < d.pinned.len() && !d.pinned[f],
        ({
            let h = d.hand;
            let next = if h + 1 == d.pinned.len() {
                0
            } else {
                h + 1
            };
            if d.pinned[h] {
                let e = Dial { reference: d.reference, pinned: d.pinned, hand: next };
                d.takes(f) == e.takes(f) && (d.takes(f) ==> d.taken(f) == e.taken(f))
            } else if d.reference[h] {
                let e = Dial { reference: d.reference.update(h, false), pinned: d.pinned, hand: next };
                d.takes(f) == e.takes(f) && (d.takes(f) ==> d.taken(f) == e.taken(f))
            } else {
                &&& d.takes(f) <==> f == h
                &&& d.taken(h) == Dial {
                    reference: d.reference,
                    pinned: d.pinned.update(h, true),
                    hand: next,
                }
            }
        }),
{
    let h = d.hand;
    let n = d.pinned.len() as int;
    let next = if h + 1 == n {
        0
    } else {
        h + 1
    };
    assert forall|g: int| 0 <= g < n && d.steps(g) == 0 implies g == h by {}
    if d.pinned[h] || d.reference[h] {
        let e = Dial {
            reference: if d.pinned[h] {
                d.reference
            } else {
                d.reference.update(h, false)
            },
            pinned: d.pinned,
            hand: next,
        };
        assert forall|g: int| 0 <= g < n && g != h implies e.steps(g) == d.steps(g) - 1 by {}
        assert(e.steps(h) == n - 1 && d.steps(h) == 0);
        assert forall|g: int| 0 <= g < n implies 0 <= #[trigger] d.steps(g) < n by {}
        assert forall|g: int| #[trigger] d.free(g) == e.free(g) by {}
        assert forall|g: int| g != h implies #[trigger] d.cold(g) == e.cold(g) by {}
        assert(!d.cold(h));
        assert(d.cold(f) ==> e.cold(f));
        if d.pinned[h] {
            assert(!d.free(h) && !e.free(h) && !e.cold(h));
            assert forall|x: int| #[trigger] d.cold(x) == e.cold(x) by {}
            assert forall|x: int| #[trigger] d.free(x) implies x != h && 0 <= x < n by {}
            assert forall|x: int| #[trigger] d.cold(x) implies d.free(x) by {}
            if exists|g: int| d.cold(g) {
                let g = choose|g: int| d.cold(g);
                assert(e.cold(g));
            }
            if exists|g: int| e.cold(g) {
                let g = choose|g: int| e.cold(g);
                assert(d.cold(g));
            }
            if d.takes(f) {
                assert forall|x: int| #[trigger] e.cold(x) implies e.steps(f) <= e.steps(x) by {
                    assert(d.cold(x));
                }
                assert forall|x: int| #[trigger] e.free(x) && !e.cold(f) implies e.steps(f) <= e.steps(
                    x,
                ) by {
                    assert(d.free(x));
                }
            }
            if e.takes(f) {
                assert forall|x: int| #[trigger] d.cold(x) implies d.steps(f) <= d.steps(x) by {
                    assert(e.cold(x));
                }
                assert forall|x: int| #[trigger] d.free(x) && !d.cold(f) implies d.steps(f) <= d.steps(
                    x,
                ) by {
                    assert(e.free(x));
                }
            }
            assert(d.takes(f) == e.takes(f));
        } else {
            assert(e.cold(h));
            if exists|g: int| d.cold(g) {
                let g = choose|g: int| d.cold(g);
                assert(e.cold(g));
                assert(d.steps(g) >= 1);
                if d.takes(f) {
                    assert(d.steps(f) <= d.steps(g));
                    assert forall|x: int| #[trigger] e.cold(x) implies e.steps(f) <= e.steps(x) by {
                        if x != h {
                            assert(d.cold(x));
                        }
                    }
                }
                if e.takes(f) {
                    assert(e.steps(f) <= e.steps(g));
                    assert(f != h);
                    assert forall|x: int| #[trigger] d.cold(x) implies d.steps(f) <= d.steps(x) by {
                        assert(e.cold(x));
                    }
                }
            } else {
                assert forall|x: int| #[trigger] e.cold(x) implies x == h by {
                    if x != h {
                        assert(d.cold(x));
                    }
                }
                assert(d.free(h));
                if d.takes(f) {
                    assert(d.steps(f) <= d.steps(h));
                    assert(f == h);
                }
                if e.takes(f) {
                    assert(f == h);
                    assert forall|x: int| #[trigger] d.free(x) implies d.steps(h) <= d.steps(x) by {}
                }
            }
        }
        if d.takes(f) {
            assert(d.free(f)) by {
                assert(d.cold(f) || d.free(f));
            }
            assert forall|g: int| 0 <= g < n implies (d.reference[g] && !d.passes(g, f)) == (
            e.reference[g] && !e.passes(g, f)) by {
                if g == h && !d.pinned[h] {
                    assert(d.free(h));
                    if d.cold(f) {
                        assert(f != h);
                        assert(d.steps(h) < d.steps(f));
                    }
                    assert(d.passes(h, f));
                }
                if g != h && d.free(g) && d.cold(f) {
                    assert(f != h);
                }
                if g != h && d.free(g) && !d.cold(f) {
                    assert(d.passes(g, f));
                    if e.cold(f) {
                        assert(f == h);
                        assert(e.steps(g) < n - 1);
                    }
                }
            }
            assert(d.taken(f).reference =~= e.taken(f).reference);
        }
    } else {
        assert(d.cold(h));
        assert(d.takes(h)) by {
            assert forall|g: int| #[trigger] d.cold(g) implies d.steps(h) <= d.steps(g) by {}
        }
        if d.takes(f) {
            assert(d.steps(f) <= d.steps(h));
        }
        assert forall|g: int| 0 <= g < n implies !d.passes(g, h) by {}
        assert(d.taken(h).reference =~= d.reference);
    }
}

/// Pinning a frame marks it as used and keeps it from being taken; unpinning lets it be taken again
/// and leaves its mark; neither touches another frame or the hand.
pub proof fn law_pin(d: Dial, f: int, g: int)
    requires
        d.reference.len() == d.pinned.len(),
        0 <= f < d.pinned.len(),
        0 <= g < d.pinned.len(),
    ensures
        d.pin(f).pinned[g] == (d.pinned[g] || g == f),
        d.pin(f).reference[g] == (d.reference[g] || g == f),
        d.pin(f).hand == d.hand,
        d.unpin(f).pinned[g] == (d.pinned[g] && g != f),
        d.unpin(f).reference[g] == d.reference[g],
        d.unpin(f).hand == d.hand,
{
}

} // verus!
