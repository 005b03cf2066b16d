//! Choosing the frame that has to make room, by the second-chance rule.
use vstd::arithmetic::div_mod::{lemma_mod_self_0, lemma_small_mod};
use vstd::prelude::*;

verus! {

/// The frames of a pool on a dial. The hand passes over a frame that was used since its last
/// lap and takes the next one that was not; pinned frames are never taken.
pub struct ClockReplacer {
    num_frames: usize,
    reference: Vec<bool>,
    pinned: Vec<bool>,
    hand: usize,
}

/// A dial as a mathematical value.
pub struct Dial {
    pub reference: Seq<bool>,
    pub pinned: Seq<bool>,
    pub hand: int,
}

impl Dial {
    /// How many steps the hand takes to frame `f`.
    pub open spec fn steps(self, f: int) -> int {
        if f >= self.hand {
            f - self.hand
        } else {
            f - self.hand + self.pinned.len()
        }
    }

    pub open spec fn free(self, f: int) -> bool {
        0 <= f < self.pinned.len() && !self.pinned[f]
    }

    /// Free, and not used since the hand passed by.
    pub open spec fn cold(self, f: int) -> bool {
        self.free(f) && !self.reference[f]
    }

    /// The first cold frame under the hand, or the first free one where none is cold.
    pub open spec fn takes(self, f: int) -> bool {
        if exists|g: int| self.cold(g) {
            self.cold(f) && forall|g: int| #[trigger] self.cold(g) ==> self.steps(f) <= self.steps(g)
        } else {
            self.free(f) && forall|g: int| #[trigger] self.free(g) ==> self.steps(f) <= self.steps(g)
        }
    }

    /// The hand passes over `g` on its way to `f`.
    pub open spec fn passes(self, g: int, f: int) -> bool {
        self.free(g) && (self.cold(f) ==> self.steps(g) < self.steps(f))
    }

    /// The dial after `f` was taken: the free frames that the hand passed over have lost their
    /// mark, `f` is pinned, and the hand stands behind it.
    pub open spec fn taken(self, f: int) -> Dial {
        Dial {
            reference: Seq::new(
                self.reference.len(),
                |g: int| self.reference[g] && !self.passes(g, f),
            ),
            pinned: self.pinned.update(f, true),
            hand: if f + 1 == self.pinned.len() {
                0
            } else {
                f + 1
            },
        }
    }
}

/// One call of the replacer.
pub enum Turn {
    Pin(int),
    Unpin(int),
    Victim,
}

impl Turn {
    /// The call speaks of a frame that there is.
    pub open spec fn fits(self, d: Dial) -> bool {
        match self {
            Turn::Pin(f) => 0 <= f < d.pinned.len(),
            Turn::Unpin(f) => 0 <= f < d.pinned.len(),
            Turn::Victim => true,
        }
    }
}

impl Dial {
    /// There are as many marks as frames, and the hand stands at a frame, if there is one.
    pub open spec fn shaped(self) -> bool {
        &&& self.reference.len() == self.pinned.len()
        &&& 0 <= self.hand
        &&& self.hand < self.pinned.len() || (self.hand == 0 && self.pinned.len() == 0)
    }

    /// The dial after `f` was pinned.
    pub open spec fn pin(self, f: int) -> Dial {
        Dial {
            reference: self.reference.update(f, true),
            pinned: self.pinned.update(f, true),
            hand: self.hand,
        }
    }

    /// The dial after `f` was unpinned.
    pub open spec fn unpin(self, f: int) -> Dial {
        Dial { reference: self.reference, pinned: self.pinned.update(f, false), hand: self.hand }
    }

    /// The dial after one call.
    pub open spec fn turned(self, turn: Turn) -> Dial {
        match turn {
            Turn::Pin(f) => self.pin(f),
            Turn::Unpin(f) => self.unpin(f),
            Turn::Victim => if exists|f: int| self.takes(f) {
                self.taken(choose|f: int| self.takes(f))
            } else {
                self
            },
        }
    }

    /// The dial after some calls.
    pub open spec fn run(self, turns: Seq<Turn>) -> Dial
        decreases turns.len(),
    {
        if turns.len() == 0 {
            self
        } else {
            self.run(turns.drop_last()).turned(turns.last())
        }
    }
}

impl ClockReplacer {
    pub closed spec fn view(&self) -> Dial {
        Dial { reference: self.reference@, pinned: self.pinned@, hand: self.hand as int }
    }

    pub closed spec fn wf(&self) -> bool {
        &&& self.reference@.len() == self.num_frames
        &&& self.pinned@.len() == self.num_frames
        &&& self.hand < self.num_frames || (self.hand == 0 && self.num_frames == 0)
        &&& 2 * self.num_frames <= usize::MAX
    }

    /// There are as many marks as frames.
    pub proof fn lemma_wf(&self)
        requires
            self.wf(),
        ensures
            self@.shaped(),
    {
    }

    pub fn new(num_frames: usize) -> (r: Self)
        requires
            2 * num_frames <= usize::MAX,
        ensures
            r.wf(),
            r@.reference == Seq::new(num_frames as nat, |i: int| false),
            r@.pinned == Seq::new(num_frames as nat, |i: int| false),
            r@.hand == 0,
    {
        let r = Self {
            num_frames,
            reference: vec![false; num_frames],
            pinned: vec![false; num_frames],
            hand: 0,
        };
        assert(r@.reference =~= Seq::new(num_frames as nat, |i: int| false));
        assert(r@.pinned =~= Seq::new(num_frames as nat, |i: int| false));
        r
    }

    /// Keeps a frame from being taken, and marks it as used.
    pub fn pin(&mut self, frame_id: usize)
        requires
            old(self).wf(),
            frame_id < old(self)@.pinned.len(),
        ensures
            final(self).wf(),
            final(self)@ == old(self)@.pin(frame_id as int),
    {
        self.pinned[frame_id] = true;
        self.reference[frame_id] = true;
    }

    /// Lets a frame be taken again. It stays marked.
    pub fn unpin(&mut self, frame_id: usize)
        requires
            old(self).wf(),
            frame_id < old(self)@.pinned.len(),
        ensures
            final(self).wf(),
            final(self)@ == old(self)@.unpin(frame_id as int),
    {
        self.pinned[frame_id] = false;
    }

    /// Takes a frame and pins it. There is none to take if and only if all are pinned.
    pub fn victim(&mut self) -> (r: Option<usize>)
        requires
            old(self).wf(),
        ensures
            final(self).wf(),
            match r {
                Some(f) => old(self)@.takes(f as int) && final(self)@ == old(self)@.taken(f as int),
                None => {
                    &&& forall|g: int| 0 <= g < old(self)@.pinned.len() ==> #[trigger] old(self)@.pinned[g]
                    &&& final(self)@ == old(self)@
                },
            },
    {
        let ghost d = self@;
        let n = self.num_frames;
        let mut examined: usize = 0;
        let limit = 2 * self.num_frames;
        while examined < limit
            invariant
                self.wf(),
                n == self.num_frames,
                n == d.pinned.len(),
                n == d.reference.len(),
                limit == 2 * n,
                examined <= limit,
                d == old(self)@,
                0 <= d.hand < n || (d.hand == 0 && n == 0),
                self.pinned@ == d.pinned,
                self.hand == at(d.hand, n as int, examined as int),
                forall|g: int| #[trigger] d.cold(g) ==> examined <= d.steps(g),
                forall|g: int| #[trigger] d.free(g) ==> examined - n <= d.steps(g),
                forall|g: int|
                    0 <= g < n ==> (#[trigger] self.reference@[g] == (d.reference[g] && !(d.free(g)
                        && d.steps(g) < examined))),
            decreases limit - examined,
        {
            let current = self.hand;
            proof {
                if current + 1 == n {
                    lemma_mod_self_0(n as int);
                } else {
                    lemma_small_mod((current + 1) as nat, n as nat);
                }
                assert(examined < n ==> d.steps(current as int) == examined);
                assert(examined >= n ==> d.steps(current as int) == examined - n);
                assert forall|g: int| 0 <= g < n && d.steps(g) == d.steps(current as int) implies g
                    == current by {}
            }
            self.hand = (self.hand + 1) % self.num_frames;
            if self.pinned[current] {
                examined += 1;
                continue ;
            } else if self.reference[current] {
                self.reference[current] = false;
            } else {
                self.pinned[current] = true;
                proof {
                    let f = current as int;
                    assert(d.free(f));
                    if examined < n {
                        assert(d.cold(f));
                    } else {
                        assert forall|g: int| !d.cold(g) by {
                            if d.cold(g) {
                                assert(d.steps(g) < n);
                            }
                        }
                    }
                    assert(d.takes(f));
                    assert(self@.reference =~= d.taken(f).reference);
                    assert(self@.pinned =~= d.taken(f).pinned);
                }
                return Some(current);
            }
            examined += 1;
        }
        proof {
            assert forall|g: int| 0 <= g < d.pinned.len() implies #[trigger] d.pinned[g] by {
                if d.free(g) {
                    assert(d.steps(g) < n);
                }
            }
            assert(self@.reference =~= d.reference);
        }
        None
    }
}

/// Where the hand stands `e` steps on, within two laps.
spec fn at(hand: int, n: int, e: int) -> int {
    if hand + e < n {
        hand + e
    } else if hand + e < 2 * n {
        hand + e - n
    } else {
        hand + e - 2 * n
    }
}

/// Where a frame is free one is taken.
pub proof fn lemma_takes(d: Dial, f: int)
    requires
        d.shaped(),
        d.free(f),
    ensures
        exists|g: int| d.takes(g),
{
    if exists|g: int| d.cold(g) {
        let g = choose|g: int| d.cold(g);
        let x = lemma_nearest(d, |x: int| d.cold(x), g);
        assert forall|y: int| #[trigger] d.cold(y) implies d.steps(x) <= d.steps(y) by {
            assert((|x: int| d.cold(x))(y));
        }
        assert(d.takes(x));
    } else {
        let x = lemma_nearest(d, |x: int| d.free(x), f);
        assert forall|y: int| #[trigger] d.free(y) implies d.steps(x) <= d.steps(y) by {
            assert((|x: int| d.free(x))(y));
        }
        assert(d.takes(x));
    }
}

/// Of some frames one comes first under the hand.
proof fn lemma_nearest(d: Dial, p: spec_fn(int) -> bool, f: int) -> (r: int)
    requires
        d.shaped(),
        p(f),
        forall|g: int| #[trigger] p(g) ==> 0 <= g < d.pinned.len(),
    ensures
        p(r),
        forall|g: int| #[trigger] p(g) ==> d.steps(r) <= d.steps(g),
    decreases d.steps(f),
{
    if exists|g: int| #[trigger] p(g) && d.steps(g) < d.steps(f) {
        let g = choose|g: int| #[trigger] p(g) && d.steps(g) < d.steps(f);
        assert(d.steps(g) >= 0);
        lemma_nearest(d, p, g)
    } else {
        f
    }
}

} // verus!
