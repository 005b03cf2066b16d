//! What asking a pool for pages does to its frames and its medium.
use crate::clock::{Dial, Turn};
use crate::medium::{tally, Asked, Medium};
use crate::pool::{sum, BpmError, BufferPoolManager};
use crate::store::PageId;
use vstd::prelude::*;

verus! {

/// What a medium was asked adds up: a page more was handed out with each request for a page that
/// did not fail, one more was taken back with each one given back, and nothing else counts.
pub proof fn law_tally<E>(log: Seq<Asked<E>>, x: Asked<E>)
    ensures
        tally(Seq::<Asked<E>>::empty()) == (0nat, 0nat),
        tally(log.push(x)).0 == tally(log).0 + (if x is Allocate && x->Allocate_0 is Ok {
            1int
        } else {
            0
        }),
        tally(log.push(x)).1 == tally(log).1 + (if x is Free && x->Free_1 is None {
            1int
        } else {
            0
        }),
{
    assert(log.push(x).drop_last() =~= log);
}

/// The guards that are held are those on all frames together.
pub proof fn law_held(s: Seq<u32>, x: u32)
    ensures
        sum(Seq::<u32>::empty()) == 0,
        sum(s.push(x)) == sum(s) + x,
{
    assert(s.push(x).drop_last() =~= s);
}

/// A page for which a frame is set aside is given from that frame: the medium is asked nothing, no
/// frame changes, and the frame is marked as used and pinned. `a` is the pool after `o` was asked
/// for page `id`.
pub proof fn law_hit<M: Medium>(
    a: &BufferPoolManager<M>,
    o: &BufferPoolManager<M>,
    id: PageId,
    r: Result<int, BpmError<M::Error>>,
    g: int,
)
    requires
        o.wf(),
        o.tabled(id),
        a.fetched(o, id, r),
        0 <= g < o.frames(),
    ensures
        r == Ok::<int, BpmError<M::Error>>(o.place(id)),
        a.asked() == o.asked(),
        a.at(g) == o.at(g),
        a.bytes_at(g) == o.bytes_at(g),
        a.dirty(g) == o.dirty(g),
        a.unused() == o.unused(),
        a.dial().hand == o.dial().hand,
        a.dial().pinned[g] == (o.dial().pinned[g] || g == o.place(id)),
        a.dial().reference[g] == (o.dial().reference[g] || g == o.place(id)),
{
    o.lemma_place(id);
    o.lemma_dial();
}

/// A page for which none is set aside is read into a frame that has held no page yet, the one that
/// comes first, or else into the one that the clock takes; what was written to that frame is
/// written to the medium first, and no other frame changes. `a` is the pool after `o` was asked
/// for page `id`.
pub proof fn law_miss<M: Medium>(
    a: &BufferPoolManager<M>,
    o: &BufferPoolManager<M>,
    id: PageId,
    f: int,
    g: int,
)
    requires
        o.wf(),
        !o.tabled(id),
        !o.full(),
        a.fetched(o, id, Ok(f)),
        0 <= g < o.frames(),
        g != f,
    ensures
        0 <= f < o.frames(),
        o.pins()[f] == 0,
        o.unused().len() > 0 ==> f == o.unused().last() && a.unused() == o.unused().drop_last()
            && a.dial() == o.dial().pin(f),
        o.unused().len() == 0 ==> o.dial().takes(f) && a.unused() == o.unused() && a.dial()
            == o.dial().taken(f).pin(f),
        a.tabled(id),
        a.place(id) == f,
        !a.dirty(f),
        o.pages().contains_key(id) ==> a.at(f) == Some(id),
        a.at(g) == o.at(g),
        a.bytes_at(g) == o.bytes_at(g),
        a.dirty(g) == o.dirty(g),
        o.records() && !o.dirty(f) ==> a.asked() == o.asked() + seq![
            Asked::Read(id, Ok(a.bytes_at(f))),
        ],
        o.records() && o.dirty(f) ==> a.asked() == o.asked() + seq![
            Asked::Write(o.at(f)->0, o.bytes_at(f), None),
            Asked::Read(id, Ok(a.bytes_at(f))),
        ],
        o.at(f) matches Some(q) ==> !a.tabled(q) && !a.at_hand(q),
{
    if o.unused().len() == 0 {
        o.lemma_giver();
    }
    if o.records() {
        if o.dirty(f) {
            assert(a.asked() =~= o.asked() + seq![
                Asked::Write(o.at(f)->0, o.bytes_at(f), None),
                Asked::Read(id, Ok(a.bytes_at(f))),
            ]);
        } else {
            assert(a.asked() =~= o.asked() + seq![Asked::Read(id, Ok(a.bytes_at(f)))]);
        }
    }
}

/// A page for which no frame is set aside, and none can make room, is refused: nothing changes, and
/// the medium is asked nothing. Where a frame can make room, the pool is not said to be full.
pub proof fn law_full<M: Medium>(
    a: &BufferPoolManager<M>,
    o: &BufferPoolManager<M>,
    id: PageId,
    r: Result<int, BpmError<M::Error>>,
    g: int,
)
    requires
        !o.tabled(id),
        a.fetched(o, id, r),
        0 <= g < o.frames(),
    ensures
        o.full() ==> {
            &&& a.asked() == o.asked()
            &&& a.at(g) == o.at(g)
            &&& a.bytes_at(g) == o.bytes_at(g)
            &&& a.dirty(g) == o.dirty(g)
            &&& a.unused() == o.unused()
            &&& a.dial() == o.dial()
        },
        !o.full() ==> r != Err::<int, BpmError<M::Error>>(BpmError::BufferFull),
{
}

/// A page that the medium fails to give leaves the pool without it: either what was written to the
/// frame that has to make room could not be kept, and then every frame is as it was and the page
/// was not asked for; or the page could not be read, and then the frame holds no page. `a` is the
/// pool after `o` was asked for page `id`.
pub proof fn law_failed<M: Medium>(
    a: &BufferPoolManager<M>,
    o: &BufferPoolManager<M>,
    id: PageId,
    e: M::Error,
    g: int,
)
    requires
        !o.tabled(id),
        !o.full(),
        o.records(),
        a.fetched(o, id, Err(BpmError::Medium(e))),
        0 <= g < o.frames(),
    ensures
        ({
            let f = o.giver();
            let write = Asked::Write(o.at(f)->0, o.bytes_at(f), None::<M::Error>);
            let read = Asked::Read(id, Err::<Seq<u8>, M::Error>(e));
            ||| {
                &&& o.dirty(f)
                &&& a.asked() == o.asked().push(Asked::Write(o.at(f)->0, o.bytes_at(f), Some(e)))
                &&& a.at(g) == o.at(g)
                &&& a.bytes_at(g) == o.bytes_at(g)
                &&& a.dirty(g) == o.dirty(g)
                &&& !a.tabled(id)
                &&& a.unused() == o.unused()
            }
            ||| {
                &&& !o.dirty(f) ==> a.asked() == o.asked().push(read)
                &&& o.dirty(f) ==> a.asked() == o.asked().push(write).push(read)
                &&& a.at(f) is None
                &&& !a.dirty(f)
                &&& a.bytes_at(g) == o.bytes_at(g)
                &&& g != f ==> a.at(g) == o.at(g) && a.dirty(g) == o.dirty(g)
                &&& a.tabled(id)
                &&& a.place(id) == f
            }
        }),
        a.blames(e),
{
    let f = o.giver();
    let write = Asked::Write(o.at(f)->0, o.bytes_at(f), None::<M::Error>);
    let read = Asked::Read(id, Err::<Seq<u8>, M::Error>(e));
    if a.unsaved(o, id, e) {
        let failed = Asked::Write(o.at(f)->0, o.bytes_at(f), Some(e));
        assert(o.asked() + seq![failed] =~= o.asked().push(failed));
    } else {
        assert(a.unread(o, id, e));
        if o.dirty(f) {
            assert(o.asked() + seq![write] + seq![read] =~= o.asked().push(write).push(read));
        } else {
            assert(o.asked() + Seq::<Asked<M::Error>>::empty() + seq![read] =~= o.asked().push(read));
        }
    }
}

/// A page that was brought in has one guard more on its frame, and no other frame has; a pool that
/// keeps what is held has it in the same frames, byte by byte. `a` is the pool after `o` was asked
/// for page `id`.
pub proof fn law_brought<M: Medium>(
    a: &BufferPoolManager<M>,
    o: &BufferPoolManager<M>,
    id: PageId,
    f: int,
    g: int,
)
    requires
        o.wf(),
        a.brought(o, id, f),
        a.keeps(o),
        0 <= g < o.frames(),
    ensures
        0 <= f < o.frames(),
        a.pins()[g] == o.pins()[g] + (if g == f {
            1int
        } else {
            0
        }),
        a.held() == o.held() + 1,
        !o.stale(id) && o.pages().contains_key(id) ==> a.at(f) == Some(id),
        o.pins()[g] > 0 ==> a.at(g) == o.at(g) && a.bytes_at(g) == o.bytes_at(g),
{
    o.lemma_dial();
}

/// The last request to the medium failed with an error if that is what it answered.
pub proof fn law_blames<M: Medium>(a: &BufferPoolManager<M>, e: M::Error)
    ensures
        a.blames(e) <==> a.asked().len() > 0 && match a.asked().last() {
            Asked::Read(_, Err(x)) => x == e,
            Asked::Write(_, _, Some(x)) => x == e,
            Asked::Allocate(Err(x)) => x == e,
            Asked::Free(_, Some(x)) => x == e,
            _ => false,
        },
        a.failing() <==> exists|x: M::Error| a.blames(x),
{
}

/// A medium that has handed out a page has noted it, and frames and replacer are as they were.
pub proof fn law_got<M: Medium>(
    a: &BufferPoolManager<M>,
    o: &BufferPoolManager<M>,
    id: PageId,
    g: int,
    j: PageId,
)
    requires
        a.got(o, id),
        0 <= g < o.frames(),
    ensures
        a.asked() == o.asked().push(Asked::Allocate(Ok(id))),
        a.pins() == o.pins(),
        a.at(g) == o.at(g),
        a.bytes_at(g) == o.bytes_at(g),
        a.dirty(g) == o.dirty(g),
        a.dial() == o.dial(),
        a.unused() == o.unused(),
        a.full() == o.full(),
        a.tabled(j) == o.tabled(j),
        o.tabled(j) ==> a.place(j) == o.place(j),
{
}

/// Letting a frame go takes one guard off it, and with the last one the clock may take the frame
/// again; the medium is asked nothing and no frame changes. `a` is the pool after a guard on frame
/// `f` of `o` was given up.
pub proof fn law_let_go<M: Medium>(
    a: &BufferPoolManager<M>,
    o: &BufferPoolManager<M>,
    f: int,
    g: int,
)
    requires
        o.wf(),
        a.let_go(o, f),
        0 <= f < o.frames(),
        0 <= g < o.frames(),
        o.pins()[f] > 0,
    ensures
        a.pins()[g] == o.pins()[g] - (if g == f {
            1int
        } else {
            0
        }),
        a.asked() == o.asked(),
        a.at(g) == o.at(g),
        a.bytes_at(g) == o.bytes_at(g),
        g != f ==> a.dirty(g) == o.dirty(g),
        a.pages() == o.pages(),
        a.unused() == o.unused(),
        a.dial().hand == o.dial().hand,
        a.dial().reference[g] == o.dial().reference[g],
        a.dial().pinned[g] == (o.dial().pinned[g] && (g != f || o.pins()[f] > 1)),
{
    o.lemma_dial();
}

/// The pool is full if every frame has held a page and none can be taken.
pub proof fn law_crowded<M: Medium>(o: &BufferPoolManager<M>)
    requires
        o.wf(),
    ensures
        o.full() <==> o.unused().len() == 0 && forall|f: int|
            0 <= f < o.frames() ==> #[trigger] o.dial().pinned[f],
{
    o.lemma_crowded();
}

/// A run of calls is made one after another, and a call for a victim takes the frame that the clock
/// takes, if there is one.
pub proof fn law_run(d: Dial, turns: Seq<Turn>, turn: Turn, f: int)
    requires
        d.shaped(),
    ensures
        d.run(Seq::empty()) == d,
        d.run(turns.push(turn)) == d.run(turns).turned(turn),
        d.turned(Turn::Pin(f)) == d.pin(f),
        d.turned(Turn::Unpin(f)) == d.unpin(f),
        d.takes(f) ==> d.turned(Turn::Victim) == d.taken(f),
        (forall|g: int| 0 <= g < d.pinned.len() ==> #[trigger] d.pinned[g]) ==> d.turned(Turn::Victim)
            == d,
{
    assert(turns.push(turn).drop_last() =~= turns);
    if d.takes(f) {
        let g = choose|g: int| d.takes(g);
        assert(d.free(f));
        crate::laws::law_one_victim(d, f, g);
    }
}

} // verus!
