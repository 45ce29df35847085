//! The mathematical model of a bus: the capacity, every value ever broadcast,
//! the history of every reader that was ever added, and whether the writer
//! has closed the bus.
use vstd::prelude::*;

use crate::tally::{Relation, tally};

verus! {

/// What the bus knows of one reader, in logical positions (the index of a value
/// in the sequence of all values ever broadcast).
pub struct RxState {
    /// The number of values that had been broadcast when the reader was added.
    pub join: nat,
    /// The position of the next value the reader will take (for a reader that
    /// left: the position it had reached when it left).
    pub pos: nat,
    /// Whether the reader has left the bus.
    pub gone: bool,
    /// For a reader that left: `None` while the writer has not yet noticed the
    /// departure, `Some(t)` once it did, when `t` values had been broadcast.
    pub cleared: Option<nat>,
}

/// The abstract state of a bus.
pub struct BusView<T> {
    /// The number of values the bus buffers for each reader (the `len` given to `new`).
    pub cap: nat,
    /// Every value broadcast so far, oldest first.
    pub sent: Seq<T>,
    /// Every reader ever added, in the order of `add_rx`.
    pub rxs: Seq<RxState>,
    /// Whether the writer has closed the bus.
    pub closed: bool,
}

/// The writer counts reader `r` on the value at position `q`: `r` was
/// registered when `q` was written, and the writer had not yet noticed its
/// departure (if any).
pub open spec fn counted(r: RxState, q: int) -> bool {
    &&& r.join <= q
    &&& match r.cleared {
        Some(t) => q < t,
        None => true,
    }
}

/// The writer has discounted a departed reader `r` at position `q`: its
/// departure was noticed after `q` had been written. A bus of capacity 0 never
/// discounts anybody.
pub open spec fn discounted(r: RxState, q: int, cap: nat) -> bool {
    match r.cleared {
        Some(t) => cap > 0 && q < t,
        None => false,
    }
}

/// Reader `r` keeps the seat of position `q` busy: the writer counts it on
/// `q`, it has not taken `q`, and it was not discounted.
pub open spec fn owed(r: RxState, q: int, cap: nat) -> bool {
    &&& counted(r, q)
    &&& r.pos <= q
    &&& !discounted(r, q, cap)
}

/// Reader `r` as the writer records it when it notices the departure, `t`
/// values having been broadcast.
pub open spec fn cleared_at(r: RxState, t: nat) -> RxState {
    RxState { join: r.join, pos: r.pos, gone: r.gone, cleared: Some(t) }
}

impl<T> BusView<T> {
    /// The empty, open bus of capacity `cap`.
    pub open spec fn empty(cap: nat) -> Self {
        BusView { cap, sent: Seq::empty(), rxs: Seq::empty(), closed: false }
    }

    /// The number of values broadcast so far.
    pub open spec fn tail(self) -> nat {
        self.sent.len()
    }

    /// The number of readers the writer counts on the next value: active
    /// readers and readers whose departure it has not noticed yet.
    pub open spec fn listeners(self) -> nat {
        tally(self.rxs, Relation::Joined, self.tail() as int, self.cap)
    }

    /// The logical position of the value whose seat must be free before the
    /// next value can be written: the ring keeps one seat empty between the
    /// newest and the oldest value.
    pub open spec fn fence(self) -> int {
        if self.cap == 0 {
            self.tail() - 1
        } else {
            self.tail() - self.cap
        }
    }

    /// No reader is owed the value at the fence: the next value can be written.
    pub open spec fn has_room(self) -> bool {
        forall|k: int| 0 <= k < self.rxs.len() ==> !owed(#[trigger] self.rxs[k], self.fence(), self.cap)
    }

    /// The state with reader `k` replaced by `r`.
    pub open spec fn with_reader(self, k: int, r: RxState) -> Self {
        BusView { cap: self.cap, sent: self.sent, rxs: self.rxs.update(k, r), closed: self.closed }
    }

    /// The writer takes note of every departure it has not yet processed.
    pub open spec fn clear_departed(self) -> Self {
        BusView {
            cap: self.cap,
            sent: self.sent,
            rxs: Seq::new(
                self.rxs.len(),
                |k: int|
                    {
                        let r = self.rxs[k];
                        if r.gone && r.cleared is None {
                            cleared_at(r, self.tail())
                        } else {
                            r
                        }
                    },
            ),
            closed: self.closed,
        }
    }

    /// The state a broadcast works on: departures are only processed when the
    /// bus has no room.
    pub open spec fn settle(self) -> Self {
        if self.has_room() {
            self
        } else {
            self.clear_departed()
        }
    }

    /// A broadcast attempt on this state succeeds.
    pub open spec fn accepts(self) -> bool {
        self.settle().has_room()
    }

    /// The state after `v` has been broadcast.
    pub open spec fn push(self, v: T) -> Self {
        BusView { cap: self.cap, sent: self.sent.push(v), rxs: self.rxs, closed: self.closed }
    }

    /// The state after a new reader has been added: it starts at the tail.
    pub open spec fn add_reader(self) -> Self {
        BusView {
            cap: self.cap,
            sent: self.sent,
            rxs: self.rxs.push(RxState { join: self.tail(), pos: self.tail(), gone: false, cleared: None }),
            closed: self.closed,
        }
    }

    /// The state after the writer has closed the bus.
    pub open spec fn close(self) -> Self {
        BusView { cap: self.cap, sent: self.sent, rxs: self.rxs, closed: true }
    }

    /// Reader `k` has a value it can take. A bus of capacity 0 never delivers.
    pub open spec fn can_take(self, k: int) -> bool {
        self.cap > 0 && self.rxs[k].pos < self.tail()
    }

    /// The state after reader `k` has taken its next value.
    pub open spec fn advance(self, k: int) -> Self {
        let r = self.rxs[k];
        self.with_reader(k, RxState { join: r.join, pos: r.pos + 1, gone: r.gone, cleared: r.cleared })
    }

    /// The state after reader `k` has left.
    pub open spec fn depart(self, k: int) -> Self {
        let r = self.rxs[k];
        self.with_reader(k, RxState { join: r.join, pos: r.pos, gone: true, cleared: r.cleared })
    }

    /// The values reader `k` has not taken yet, oldest first.
    pub open spec fn unread(self, k: int) -> Seq<T> {
        self.sent.subrange(self.rxs[k].pos as int, self.tail() as int)
    }

    /// Reader `k` is registered and has not left.
    pub open spec fn active(self, k: int) -> bool {
        0 <= k < self.rxs.len() && !self.rxs[k].gone
    }

    /// A reader state that can occur on this bus: it stands between the point
    /// it joined and the tail, an uncleared reader is at most `cap` values
    /// behind, and only readers that left are ever cleared.
    pub open spec fn reader_ok(self, r: RxState) -> bool {
        &&& r.join <= r.pos <= self.tail()
        &&& self.cap > 0 && r.cleared is None ==> self.tail() - r.pos <= self.cap
        &&& r.cleared is Some ==> r.gone && r.pos <= r.cleared->0 <= self.tail()
        &&& !r.gone ==> r.cleared is None
    }

    /// The facts about readers that every reachable state satisfies.
    pub open spec fn consistent(self) -> bool {
        forall|k: int| 0 <= k < self.rxs.len() ==> self.reader_ok(#[trigger] self.rxs[k])
    }

    /// Replacing one reader of a consistent state by a possible reader state
    /// keeps the state consistent.
    pub proof fn lemma_with_reader_consistent(self, k: int, r: RxState)
        requires
            self.consistent(),
            0 <= k < self.rxs.len(),
            self.reader_ok(r),
        ensures
            self.with_reader(k, r).consistent(),
    {
        let post = self.with_reader(k, r);
        assert forall|j: int| 0 <= j < post.rxs.len() implies post.reader_ok(#[trigger] post.rxs[j]) by {
            if j != k {
                assert(post.rxs[j] == self.rxs[j]);
            }
        }
    }
}

} // verus!
