//! The bus itself: a ring of seats written by one writer and read by every
//! reader, with per-seat read counts that tell the writer when a seat is free.
use std::collections::VecDeque;
use vstd::prelude::*;

use crate::model::{BusView, cleared_at, counted, owed};
use crate::slots::{lemma_slot_bound, lemma_slot_distinct, lemma_slot_small, lemma_slot_step, lemma_slot_wrap};
use crate::tally::{
    Relation,
    relates,
    tally,
    lemma_tally_ext,
    lemma_tally_partition,
    lemma_tally_push,
    lemma_tally_update,
    lemma_tally_update_same,
    lemma_tally_zero,
};

verus! {

/// One seat of the ring: the value written there, how many readers were
/// registered when it was written, and how many of them have taken it.
struct Seat<T: Clone> {
    read: usize,
    max: usize,
    val: Option<T>,
}

impl<T: Clone> Seat<T> {
    /// A reader takes (a clone of) the value on this seat.
    fn take(&mut self) -> (v: T)
        requires
            old(self).val is Some,
            old(self).read < usize::MAX,
        ensures
            final(self).read == old(self).read + 1,
            final(self).max == old(self).max,
            final(self).val == old(self).val,
            cloned(old(self).val->0, v),
    {
        let read = self.read;
        // the value is extracted before the read count goes up, so that the
        // writer cannot have replaced it by then
        let v = self.val.clone().expect("");
        self.read = read + 1;
        v
    }

    /// A seat that has never been written.
    fn default() -> (s: Self)
        ensures
            s.read == 0,
            s.max == 0,
            s.val is None,
    {
        Seat { read: 0, max: 0, val: None }
    }
}

/// The writing end of a bus, which also holds the ring that readers take from.
pub struct Bus<T: Clone> {
    ring: Vec<Seat<T>>,
    len: usize,
    tail: usize,
    readers: usize,
    // rleft keeps track of readers that should be skipped for each index: a
    // seat's read count stays below its max for readers that left before
    // taking it.
    rleft: Vec<usize>,
    // the heads of readers that left, in the order they left, until the writer
    // processes them
    leaving: VecDeque<usize>,
    // set once the writer is done; readers then get `Disconnected` instead
    // of `Empty` after the last value
    closed: bool,
    pending: Ghost<Seq<nat>>,
    model: Ghost<BusView<T>>,
    instance: Ghost<int>,
}

/// A reading end of a bus. It takes values from the bus that created it.
pub struct BusReader {
    head: usize,
    id: Ghost<nat>,
    bus: Ghost<int>,
}

/// Why a reader got no value.
#[derive(PartialEq, Eq, Debug, Clone, Copy, Structural)]
pub enum TryRecvError {
    /// The reader has received everything broadcast so far.
    Empty,
    /// The reader has received everything, and the writer has closed the bus.
    Disconnected,
}

impl BusReader {
    /// The number of the reader: its index among all readers ever added to its bus.
    pub closed spec fn id(&self) -> nat {
        self.id@
    }

    /// The seat of the ring the reader takes its next value from.
    pub closed spec fn slot(&self) -> nat {
        self.head as nat
    }

    /// The identity of the bus that created the reader.
    pub closed spec fn owner(&self) -> int {
        self.bus@
    }
}

impl<T: Clone> View for Bus<T> {
    type V = BusView<T>;

    closed spec fn view(&self) -> BusView<T> {
        self.model@
    }
}

impl<T: Clone> Bus<T> {
    /// The identity of this bus. Callers learn nothing of it but that it stays
    /// the same, so a reader made by one bus can only be proved to belong to it.
    pub closed spec fn instance(&self) -> int {
        self.instance@
    }

    /// `rx` is an active reader of this bus.
    pub open spec fn holds(&self, rx: &BusReader) -> bool {
        &&& rx.owner() == self.instance()
        &&& self@.active(rx.id() as int)
        &&& rx.slot() == self@.rxs[rx.id() as int].pos % (self@.cap + 1)
    }

    /// The seat of logical position `p` holds its value and the counts that
    /// describe the readers' progress on it.
    closed spec fn seat_holds(&self, p: int) -> bool {
        let v = self.model@;
        let i = p % (self.len as int);
        &&& self.ring@[i].val == Some(v.sent[p])
        &&& self.ring@[i].max == tally(v.rxs, Relation::Joined, p, v.cap)
        &&& self.ring@[i].read == tally(v.rxs, Relation::Took, p, v.cap)
        &&& self.rleft@[i] == tally(v.rxs, Relation::Discounted, p, v.cap)
    }

    /// Seat `i` has never been written.
    closed spec fn seat_blank(&self, i: int) -> bool {
        &&& self.ring@[i].val is None
        &&& self.ring@[i].read == 0
        &&& self.ring@[i].max == 0
        &&& self.rleft@[i] == 0
    }

    /// The queue of departures matches the readers that left unnoticed.
    closed spec fn pending_ok(&self) -> bool {
        let v = self.model@;
        let pend = self.pending@;
        &&& self.leaving@.len() == pend.len()
        &&& forall|j: int|
            0 <= j < pend.len() ==> {
                let k = #[trigger] pend[j];
                &&& k < v.rxs.len()
                &&& v.rxs[k as int].gone
                &&& v.rxs[k as int].cleared is None
                &&& self.leaving@[j] as int == (v.rxs[k as int].pos as int) % (self.len as int)
            }
        &&& forall|j1: int, j2: int|
            0 <= j1 < pend.len() && 0 <= j2 < pend.len() && j1 != j2 ==> #[trigger] pend[j1]
                != #[trigger] pend[j2]
        &&& forall|k: int|
            0 <= k < v.rxs.len() && #[trigger] v.rxs[k].gone && v.rxs[k].cleared is None
                ==> pend.contains(k as nat)
    }

    /// The ring, the counters and the departure queue agree with the model.
    pub closed spec fn wf(&self) -> bool {
        let v = self.model@;
        let m = self.len as int;
        let n = v.tail() as int;
        &&& m == v.cap + 1
        &&& self.ring@.len() == m
        &&& self.rleft@.len() == m
        &&& self.tail as int == n % m
        &&& self.readers as nat == v.listeners()
        &&& self.closed == v.closed
        &&& v.consistent()
        &&& self.pending_ok()
        &&& forall|p: int| n - m <= p < n && 0 <= p ==> #[trigger] self.seat_holds(p)
        &&& forall|i: int| n <= i < m ==> #[trigger] self.seat_blank(i)
    }

    /// Every well-formed bus is in a consistent state: readers stand between
    /// the point they joined and the tail, and no active reader falls more
    /// than `cap` values behind.
    pub proof fn lemma_consistent(&self)
        requires
            self.wf(),
        ensures
            self@.consistent(),
    {
    }

    /// Creates a bus that buffers up to `len` values for each reader.
    pub fn new(len: usize) -> (bus: Bus<T>)
        requires
            len < usize::MAX,
        ensures
            bus.wf(),
            bus@ == BusView::<T>::empty(len as nat),
            bus@.cap == len,
            bus@.sent.len() == 0,
            bus@.rxs.len() == 0,
            !bus@.closed,
    {
        // the ring must have room for one padding element
        let len = len + 1;
        let mut ring: Vec<Seat<T>> = Vec::new();
        while ring.len() < len
            invariant
                ring@.len() <= len,
                forall|i: int|
                    0 <= i < ring@.len() ==> {
                        &&& (#[trigger] ring@[i]).val is None
                        &&& ring@[i].read == 0
                        &&& ring@[i].max == 0
                    },
            decreases len - ring@.len(),
        {
            ring.push(Seat::default());
        }
        let mut rleft: Vec<usize> = Vec::new();
        while rleft.len() < len
            invariant
                rleft@.len() <= len,
                forall|i: int| 0 <= i < rleft@.len() ==> #[trigger] rleft@[i] == 0,
            decreases len - rleft@.len(),
        {
            rleft.push(0);
        }
        let bus = Bus {
            ring,
            len,
            tail: 0,
            readers: 0,
            rleft,
            leaving: VecDeque::new(),
            closed: false,
            pending: Ghost(Seq::empty()),
            model: Ghost(BusView::empty((len - 1) as nat)),
            instance: Ghost(arbitrary()),
        };
        proof {
            lemma_slot_small(0, len as int);
            assert forall|i: int| 0 <= i < len implies #[trigger] bus.seat_blank(i) by {}
        }
        bus
    }
}


impl<T: Clone> Bus<T> {
    /// Adds a reader, which will receive every value broadcast from now on.
    pub fn add_rx(&mut self) -> (rx: BusReader)
        requires
            old(self).wf(),
            !old(self)@.closed,
            old(self)@.listeners() < usize::MAX,
        ensures
            final(self).wf(),
            final(self).instance() == old(self).instance(),
            final(self)@ == old(self)@.add_reader(),
            final(self)@.listeners() == old(self)@.listeners() + 1,
            rx.id() == old(self)@.rxs.len(),
            final(self).holds(&rx),
            final(self)@.cap == old(self)@.cap,
            final(self)@.sent == old(self)@.sent,
            final(self)@.closed == old(self)@.closed,
            final(self)@.rxs.len() == old(self)@.rxs.len() + 1,
            forall|j: int| 0 <= j < old(self)@.rxs.len() ==> #[trigger] final(self)@.rxs[j] == old(self)@.rxs[j],
            final(self)@.active(rx.id() as int),
            final(self)@.rxs[rx.id() as int].pos == old(self)@.tail(),
    {
        let ghost pre = self.model@;
        self.readers = self.readers + 1;
        let rx = BusReader { head: self.tail, id: Ghost(pre.rxs.len()), bus: self.instance };
        proof {
            let post = pre.add_reader();
            let x = post.rxs.last();
            self.model = Ghost(post);
            let m = self.len as int;
            let n = pre.tail() as int;
            lemma_tally_push(pre.rxs, x, Relation::Joined, n, pre.cap);
            assert forall|p: int| n - m <= p < n && 0 <= p implies #[trigger] self.seat_holds(p) by {
                assert(old(self).seat_holds(p));
                lemma_tally_push(pre.rxs, x, Relation::Joined, p, pre.cap);
                lemma_tally_push(pre.rxs, x, Relation::Took, p, pre.cap);
                lemma_tally_push(pre.rxs, x, Relation::Discounted, p, pre.cap);
            }
            assert forall|i: int| n <= i < m implies #[trigger] self.seat_blank(i) by {
                assert(old(self).seat_blank(i));
            }
            assert(self.pending_ok()) by {
                assert(old(self).pending_ok());
                assert forall|k: int|
                    0 <= k < post.rxs.len() && #[trigger] post.rxs[k].gone && post.rxs[k].cleared is None
                    implies self.pending@.contains(k as nat) by {
                    assert(k < pre.rxs.len());
                    assert(post.rxs[k] == pre.rxs[k]);
                }
            }
            assert(post.consistent()) by {
                assert forall|k: int| 0 <= k < post.rxs.len() implies post.reader_ok(#[trigger] post.rxs[k]) by {
                    if k < pre.rxs.len() {
                        assert(post.rxs[k] == pre.rxs[k]);
                    }
                }
            }
        }
        rx
    }
}

impl BusReader {
    /// Takes the next value broadcast on `bus`. When there is none, the error
    /// tells whether the writer has closed the bus.
    pub fn recv<T: Clone>(&mut self, bus: &mut Bus<T>) -> (r: Result<T, TryRecvError>)
        requires
            old(bus).wf(),
            old(bus).holds(&*old(self)),
        ensures
            final(bus).wf(),
            final(bus).instance() == old(bus).instance(),
            final(self).id() == old(self).id(),
            final(self).owner() == old(self).owner(),
            final(bus).holds(&*final(self)),
            ({
                let pre = old(bus)@;
                let k = old(self).id() as int;
                if pre.can_take(k) {
                    &&& r matches Ok(v) && cloned(pre.sent[pre.rxs[k].pos as int], v)
                    &&& final(bus)@ == pre.advance(k)
                } else {
                    &&& r == Err::<T, TryRecvError>(
                        if pre.closed {
                            TryRecvError::Disconnected
                        } else {
                            TryRecvError::Empty
                        },
                    )
                    &&& final(bus)@ == pre
                }
            }),
            final(bus)@.cap == old(bus)@.cap,
            final(bus)@.sent == old(bus)@.sent,
            final(bus)@.closed == old(bus)@.closed,
            final(bus)@.rxs.len() == old(bus)@.rxs.len(),
            forall|j: int|
                0 <= j < old(bus)@.rxs.len() && j != old(self).id() ==> #[trigger] final(bus)@.rxs[j]
                    == old(bus)@.rxs[j],
            ({
                let k = old(self).id() as int;
                let pos = old(bus)@.rxs[k].pos;
                &&& r is Ok <==> old(bus)@.cap > 0 && pos < old(bus)@.tail()
                &&& r is Ok ==> final(bus)@.rxs[k].pos == pos + 1
                &&& r is Ok ==> (r matches Ok(v) && cloned(old(bus)@.sent[pos as int], v))
                &&& r is Err ==> final(bus)@ == old(bus)@
                &&& r == Err::<T, TryRecvError>(TryRecvError::Empty) <==> r is Err && !old(bus)@.closed
                &&& r == Err::<T, TryRecvError>(TryRecvError::Disconnected) <==> r is Err && old(bus)@.closed
            }),
    {
        let ghost pre = bus.model@;
        let ghost k = self.id@ as int;
        let ghost m = bus.len as int;
        let ghost n = pre.tail() as int;
        let ghost pos = pre.rxs[k].pos as int;
        proof {
            assert(pre.rxs[k].join <= pos <= n);
            lemma_slot_bound(pos, m);
            lemma_slot_bound(n, m);
            if pre.cap > 0 && pos < n {
                lemma_slot_distinct(pos, n, m);
            }
        }
        let tail = bus.tail;
        if tail == self.head {
            // buffer is empty
            if bus.closed {
                return Err(TryRecvError::Disconnected);
            }
            return Err(TryRecvError::Empty);
        }
        let head = self.head;
        proof {
            assert(bus.seat_holds(pos));
            lemma_tally_partition(pre.rxs, pos, pre.cap);
            assert(relates(Relation::Owed, pre.rxs[k], pos, pre.cap));
            lemma_tally_zero(pre.rxs, Relation::Owed, pos, pre.cap);
        }
        let ret = bus.ring[head].take();
        self.head = (head + 1) % bus.len;
        proof {
            lemma_slot_step(pos, m);
            let post = pre.advance(k);
            let x = post.rxs[k];
            bus.model = Ghost(post);
            assert forall|p: int| n - m <= p < n && 0 <= p implies #[trigger] bus.seat_holds(p) by {
                assert(old(bus).seat_holds(p));
                lemma_tally_update_same(pre.rxs, k, x, Relation::Joined, p, pre.cap);
                lemma_tally_update_same(pre.rxs, k, x, Relation::Discounted, p, pre.cap);
                lemma_tally_update(pre.rxs, k, x, Relation::Took, p, pre.cap);
                if p != pos {
                    lemma_slot_distinct(if p < pos { p } else { pos }, if p < pos { pos } else { p }, m);
                }
            }
            assert forall|i: int| n <= i < m implies #[trigger] bus.seat_blank(i) by {
                assert(old(bus).seat_blank(i));
            }
            assert(bus.pending_ok()) by {
                assert(old(bus).pending_ok());
                assert forall|j: int| 0 <= j < bus.pending@.len() implies #[trigger] bus.pending@[j] != k by {}
                assert forall|kk: int|
                    0 <= kk < post.rxs.len() && #[trigger] post.rxs[kk].gone && post.rxs[kk].cleared is None
                    implies bus.pending@.contains(kk as nat) by {
                    assert(post.rxs[kk] == pre.rxs[kk]);
                }
            }
            pre.lemma_with_reader_consistent(k, x);
            lemma_tally_update_same(pre.rxs, k, x, Relation::Joined, n, pre.cap);
        }
        Ok(ret)
    }

    /// Leaves the bus: the writer stops waiting for this reader once it
    /// processes the departure.
    pub fn leave<T: Clone>(self, bus: &mut Bus<T>)
        requires
            old(bus).wf(),
            old(bus).holds(&self),
        ensures
            final(bus).wf(),
            final(bus).instance() == old(bus).instance(),
            final(bus)@ == old(bus)@.depart(self.id() as int),
            !final(bus)@.active(self.id() as int),
            final(bus)@.cap == old(bus)@.cap,
            final(bus)@.sent == old(bus)@.sent,
            final(bus)@.closed == old(bus)@.closed,
            final(bus)@.rxs.len() == old(bus)@.rxs.len(),
            final(bus)@.rxs[self.id() as int].pos == old(bus)@.rxs[self.id() as int].pos,
            forall|j: int|
                0 <= j < old(bus)@.rxs.len() && j != self.id() ==> #[trigger] final(bus)@.rxs[j]
                    == old(bus)@.rxs[j],
    {
        let ghost pre = bus.model@;
        let ghost k = self.id@ as int;
        bus.leaving.push_back(self.head);
        proof {
            let post = pre.depart(k);
            let x = post.rxs[k];
            let m = bus.len as int;
            let n = pre.tail() as int;
            bus.model = Ghost(post);
            bus.pending = Ghost(old(bus).pending@.push(k as nat));
            assert forall|p: int| n - m <= p < n && 0 <= p implies #[trigger] bus.seat_holds(p) by {
                assert(old(bus).seat_holds(p));
                lemma_tally_update_same(pre.rxs, k, x, Relation::Joined, p, pre.cap);
                lemma_tally_update_same(pre.rxs, k, x, Relation::Took, p, pre.cap);
                lemma_tally_update_same(pre.rxs, k, x, Relation::Discounted, p, pre.cap);
            }
            assert forall|i: int| n <= i < m implies #[trigger] bus.seat_blank(i) by {
                assert(old(bus).seat_blank(i));
            }
            assert(bus.pending_ok()) by {
                let pend0 = old(bus).pending@;
                let pend = bus.pending@;
                assert(old(bus).pending_ok());
                assert forall|j: int| 0 <= j < pend0.len() implies #[trigger] pend0[j] != k by {}
                assert forall|j: int| 0 <= j < pend.len() implies {
                    let kk = #[trigger] pend[j];
                    &&& kk < post.rxs.len()
                    &&& post.rxs[kk as int].gone
                    &&& post.rxs[kk as int].cleared is None
                    &&& bus.leaving@[j] as int == (post.rxs[kk as int].pos as int) % m
                } by {
                    if j < pend0.len() {
                        assert(pend[j] == pend0[j]);
                    }
                }
                assert forall|j1: int, j2: int|
                    0 <= j1 < pend.len() && 0 <= j2 < pend.len() && j1 != j2 implies #[trigger] pend[j1]
                        != #[trigger] pend[j2] by {
                    if j1 < pend0.len() && j2 < pend0.len() {
                        assert(pend[j1] == pend0[j1]);
                        assert(pend[j2] == pend0[j2]);
                    } else if j1 < pend0.len() {
                        assert(pend[j1] == pend0[j1]);
                    } else if j2 < pend0.len() {
                        assert(pend[j2] == pend0[j2]);
                    }
                }
                assert forall|kk: int|
                    0 <= kk < post.rxs.len() && #[trigger] post.rxs[kk].gone && post.rxs[kk].cleared is None
                    implies pend.contains(kk as nat) by {
                    if kk == k {
                        assert(pend[pend0.len() as int] == k);
                    } else {
                        assert(post.rxs[kk] == pre.rxs[kk]);
                        let j = choose|j: int| 0 <= j < pend0.len() && pend0[j] == kk as nat;
                        assert(pend[j] == pend0[j]);
                    }
                }
            }
            pre.lemma_with_reader_consistent(k, x);
            lemma_tally_update_same(pre.rxs, k, x, Relation::Joined, n, pre.cap);
        }
    }
}


impl<T: Clone> Bus<T> {
    /// Well-formedness depends on the departure queue only through its contents.
    proof fn lemma_wf_frame(a: &Self, b: &Self)
        requires
            a.wf(),
            b.ring == a.ring,
            b.len == a.len,
            b.tail == a.tail,
            b.readers == a.readers,
            b.closed == a.closed,
            b.rleft == a.rleft,
            b.leaving@ == a.leaving@,
            b.pending == a.pending,
            b.model == a.model,
        ensures
            b.wf(),
    {
        let n = a.model@.tail() as int;
        let m = a.len as int;
        assert forall|p: int| n - m <= p < n && 0 <= p implies #[trigger] b.seat_holds(p) by {
            assert(a.seat_holds(p));
        }
        assert forall|i: int| n <= i < m implies #[trigger] b.seat_blank(i) by {
            assert(a.seat_blank(i));
        }
        assert(a.pending_ok());
    }

    /// The writer's count of discounted readers for the seat of position `p`.
    closed spec fn discount_count(&self, p: int) -> int {
        self.rleft@[p % (self.len as int)] as int
    }

    /// Processes every departure the writer has not noticed yet: the seats that
    /// a departed reader never took stop waiting for it.
    #[verifier::loop_isolation(false)]
    fn collect_departures(&mut self)
        requires
            old(self).wf(),
        ensures
            final(self).wf(),
            final(self)@ == old(self)@.clear_departed(),
            final(self).instance() == old(self).instance(),
            final(self).ring == old(self).ring,
            final(self).tail == old(self).tail,
            final(self).len == old(self).len,
    {
        let ghost orig = self.model@;
        let ghost m = self.len as int;
        let ghost n = orig.tail() as int;
        let tail = self.tail;
        loop
            invariant
                self.wf(),
                self.ring == old(self).ring,
                self.instance == old(self).instance,
                self.tail == tail,
                self.len as int == m,
                self.model@.cap == orig.cap,
                self.model@.sent == orig.sent,
                self.model@.closed == orig.closed,
                self.model@.rxs.len() == orig.rxs.len(),
                forall|k: int|
                    0 <= k < orig.rxs.len() ==> {
                        ||| #[trigger] self.model@.rxs[k] == orig.rxs[k]
                        ||| orig.rxs[k].gone && orig.rxs[k].cleared is None && self.model@.rxs[k]
                            == cleared_at(orig.rxs[k], orig.tail())
                    },
            decreases self.leaving@.len(),
        {
            let ghost pre = self.model@;
            let ghost pend0 = self.pending@;
            let ghost leaving0 = self.leaving@;
            let ghost before = *self;
            proof {
                assert(self.pending_ok());
            }
            match self.leaving.pop_front() {
                None => {
                    proof {
                        Self::lemma_wf_frame(&before, &*self);
                    }
                    break;
                },
                Some(left) => {
                    // a reader has left: it no longer counts on the values
                    // written from now on, and every seat between its head and
                    // the tail has max one too high, which rleft makes up for
                    let ghost k = pend0[0] as int;
                    let ghost r = pre.rxs[k];
                    let ghost pos = r.pos as int;
                    proof {
                        assert(counted(r, n));
                        lemma_tally_zero(pre.rxs, Relation::Joined, n, pre.cap);
                    }
                    self.readers = self.readers - 1;
                    let ghost ring0 = self.ring;
                    let ghost leaving1 = self.leaving;
                    proof {
                        self.pending = Ghost(pend0.subrange(1, pend0.len() as int));
                        assert(left as int == pos % m);
                        assert(r.join <= pos <= n);
                        assert(orig.cap > 0 ==> n - pos <= orig.cap);
                        lemma_slot_bound(pos, m);
                        lemma_slot_bound(n, m);
                        assert forall|p: int| n - m <= p < n && 0 <= p implies #[trigger] self.discount_count(p)
                            == tally(pre.rxs, Relation::Discounted, p, pre.cap) + (if pos <= p < pos {
                            1int
                        } else {
                            0int
                        }) by {
                            assert(before.seat_holds(p));
                        }
                        assert forall|i: int| n <= i < m implies #[trigger] self.rleft@[i] == 0 by {
                            assert(before.seat_blank(i));
                        }
                    }
                    let mut left = left;
                    let ghost mut x: int = pos;
                    while left != tail
                        invariant
                            self.ring == ring0,
                            self.model@ == pre,
                            self.leaving == leaving1,
                            self.pending@ == pend0.subrange(1, pend0.len() as int),
                            self.readers == before.readers - 1,
                            self.closed == before.closed,
                            self.instance == before.instance,
                            self.tail == tail,
                            self.len as int == m,
                            self.rleft@.len() == m,
                            pos <= x <= n,
                            left as int == x % m,
                            orig.cap > 0 || x == pos,
                            forall|p: int|
                                n - m <= p < n && 0 <= p ==> #[trigger] self.discount_count(p) == tally(
                                    pre.rxs,
                                    Relation::Discounted,
                                    p,
                                    pre.cap,
                                ) + (if pos <= p < x {
                                    1int
                                } else {
                                    0int
                                }),
                            forall|i: int| n <= i < m ==> #[trigger] self.rleft@[i] == 0,
                        decreases n - x,
                    {
                        let ghost s1 = *self;
                        proof {
                            lemma_slot_bound(x, m);
                            if orig.cap == 0 {
                                assert(false);
                            }
                            assert(x < n);
                            assert(before.seat_holds(x));
                            assert(self.discount_count(x) == tally(pre.rxs, Relation::Discounted, x, pre.cap));
                            lemma_tally_partition(pre.rxs, x, pre.cap);
                            assert(relates(Relation::Owed, pre.rxs[k], x, pre.cap));
                            lemma_tally_zero(pre.rxs, Relation::Owed, x, pre.cap);
                        }
                        self.rleft[left] = self.rleft[left] + 1;
                        left = (left + 1) % self.len;
                        proof {
                            lemma_slot_step(x, m);
                            let x0 = x;
                            x = x + 1;
                            assert forall|p: int| n - m <= p < n && 0 <= p implies #[trigger] self.discount_count(p)
                                == tally(pre.rxs, Relation::Discounted, p, pre.cap) + (if pos <= p < x {
                                1int
                            } else {
                                0int
                            }) by {
                                assert(s1.discount_count(p) == tally(pre.rxs, Relation::Discounted, p, pre.cap) + (
                                if pos <= p < x0 {
                                    1int
                                } else {
                                    0int
                                }));
                                if p != x0 {
                                    lemma_slot_distinct(if p < x0 { p } else { x0 }, if p < x0 { x0 } else { p }, m);
                                }
                            }
                            assert forall|i: int| n <= i < m implies #[trigger] self.rleft@[i] == 0 by {
                                lemma_slot_small(x0, m);
                            }
                        }
                    }
                    proof {
                        if orig.cap > 0 && x < n {
                            lemma_slot_distinct(x, n, m);
                        }
                        assert(orig.cap > 0 ==> x == n);
                        let post_r = cleared_at(r, orig.tail());
                        let post = pre.with_reader(k, post_r);
                        let after_loop = *self;
                        self.model = Ghost(post);
                        lemma_tally_update(pre.rxs, k, post_r, Relation::Joined, n, pre.cap);
                        assert forall|p: int| n - m <= p < n && 0 <= p implies #[trigger] self.seat_holds(p) by {
                            assert(before.seat_holds(p));
                            lemma_tally_update_same(pre.rxs, k, post_r, Relation::Joined, p, pre.cap);
                            lemma_tally_update_same(pre.rxs, k, post_r, Relation::Took, p, pre.cap);
                            lemma_tally_update(pre.rxs, k, post_r, Relation::Discounted, p, pre.cap);
                            assert(after_loop.discount_count(p) == tally(pre.rxs, Relation::Discounted, p, pre.cap) + (
                            if pos <= p < x {
                                1int
                            } else {
                                0int
                            }));
                        }
                        assert forall|i: int| n <= i < m implies #[trigger] self.seat_blank(i) by {
                            assert(before.seat_blank(i));
                        }
                        assert(self.pending_ok()) by {
                            let pend = self.pending@;
                            assert forall|j: int| 0 <= j < pend.len() implies {
                                let kk = #[trigger] pend[j];
                                &&& kk < post.rxs.len()
                                &&& post.rxs[kk as int].gone
                                &&& post.rxs[kk as int].cleared is None
                                &&& self.leaving@[j] as int == (post.rxs[kk as int].pos as int) % m
                            } by {
                                assert(pend[j] == pend0[j + 1]);
                                assert(self.leaving@[j] == leaving0[j + 1]);
                                assert(pend0[j + 1] != pend0[0]);
                            }
                            assert forall|j1: int, j2: int|
                                0 <= j1 < pend.len() && 0 <= j2 < pend.len() && j1 != j2 implies #[trigger] pend[j1]
                                    != #[trigger] pend[j2] by {
                                assert(pend[j1] == pend0[j1 + 1]);
                                assert(pend[j2] == pend0[j2 + 1]);
                            }
                            assert forall|kk: int|
                                0 <= kk < post.rxs.len() && #[trigger] post.rxs[kk].gone && post.rxs[kk].cleared
                                    is None implies pend.contains(kk as nat) by {
                                assert(kk != k);
                                assert(post.rxs[kk] == pre.rxs[kk]);
                                let j = choose|j: int| 0 <= j < pend0.len() && pend0[j] == kk as nat;
                                assert(j != 0);
                                assert(pend[j - 1] == pend0[j]);
                            }
                        }
                        pre.lemma_with_reader_consistent(k, post_r);
                        assert forall|kk: int|
                            0 <= kk < orig.rxs.len() implies {
                                ||| #[trigger] post.rxs[kk] == orig.rxs[kk]
                                ||| orig.rxs[kk].gone && orig.rxs[kk].cleared is None && post.rxs[kk]
                                    == cleared_at(orig.rxs[kk], orig.tail())
                            } by {
                            if kk == k {
                                assert(pre.rxs[k] == orig.rxs[k]);
                            } else {
                                assert(post.rxs[kk] == pre.rxs[kk]);
                            }
                        }
                    }
                },
            }
        }
        proof {
            let fin = self.model@;
            assert(self.pending_ok());
            assert(fin.rxs =~= orig.clear_departed().rxs) by {
                assert forall|k: int| 0 <= k < fin.rxs.len() implies fin.rxs[k] == orig.clear_departed().rxs[k] by {
                    if orig.rxs[k].gone && orig.rxs[k].cleared is None {
                        if fin.rxs[k] == orig.rxs[k] {
                            assert(self.pending@.contains(k as nat));
                        }
                    }
                }
            }
        }
    }
}


impl<T: Clone> Bus<T> {
    /// The seat after the tail is free exactly when the bus has room; the
    /// writer's arithmetic on that seat cannot underflow.
    proof fn lemma_fence(&self)
        requires
            self.wf(),
        ensures
            ({
                let f = (self.tail as int + 1) % (self.len as int);
                &&& f == (self@.tail() as int + 1) % (self.len as int)
                &&& 0 <= f < self.len
                &&& self.rleft@[f] <= self.ring@[f].max
                &&& (self.ring@[f].read == self.ring@[f].max - self.rleft@[f]) <==> self@.has_room()
            }),
    {
        let v = self.model@;
        let m = self.len as int;
        let n = v.tail() as int;
        let f = (self.tail as int + 1) % m;
        lemma_slot_step(n, m);
        lemma_slot_bound(n + 1, m);
        let q = v.fence();
        if q >= 0 {
            if m == 1 {
                lemma_slot_bound(q, m);
            } else {
                lemma_slot_wrap(n + 1, m);
            }
            assert(q % m == f);
            assert(self.seat_holds(q));
            lemma_tally_partition(v.rxs, q, v.cap);
            lemma_tally_zero(v.rxs, Relation::Owed, q, v.cap);
            if self.ring@[f].read == self.ring@[f].max - self.rleft@[f] {
                assert forall|k: int| 0 <= k < v.rxs.len() implies !owed(#[trigger] v.rxs[k], v.fence(), v.cap) by {
                    assert(!relates(Relation::Owed, v.rxs[k], q, v.cap));
                }
            }
            if v.has_room() {
                assert forall|k: int| 0 <= k < v.rxs.len() implies !relates(
                    Relation::Owed,
                    #[trigger] v.rxs[k],
                    q,
                    v.cap,
                ) by {
                    assert(!owed(v.rxs[k], v.fence(), v.cap));
                }
            }
        } else {
            if m == 1 {
                lemma_slot_bound(n + 1, m);
            } else {
                lemma_slot_small(n + 1, m);
            }
            assert(self.seat_blank(f));
            assert forall|k: int| 0 <= k < v.rxs.len() implies !owed(#[trigger] v.rxs[k], v.fence(), v.cap) by {}
        }
    }

    /// Writes `val` if the seat after the tail is free; when it is not, takes
    /// note of the readers that left and tries once more.
    fn broadcast_inner(&mut self, val: T) -> (r: Result<(), T>)
        requires
            old(self).wf(),
        ensures
            final(self).wf(),
            final(self).instance() == old(self).instance(),
            ({
                let mid = old(self)@.settle();
                if mid.has_room() {
                    &&& r is Ok
                    &&& final(self)@ == mid.push(val)
                } else {
                    &&& r == Err::<(), T>(val)
                    &&& final(self)@ == mid
                }
            }),
        decreases (if old(self)@.has_room() {
            0int
        } else {
            1int
        }),
    {
        let tail = self.tail;
        // the seat after the tail must be free too, so that one seat always
        // stays empty between head and tail: readers can then tell an empty
        // ring from a full one
        let fence = (tail + 1) % self.len;
        proof {
            self.lemma_fence();
        }
        let fence_read = self.ring[fence].read;
        if fence_read == self.ring[fence].max - self.rleft[fence] {
            // next one over is also free, we have a free seat!
            let ghost before = *self;
            let ghost pre = self.model@;
            let ghost m = self.len as int;
            let ghost n = pre.tail() as int;
            let readers = self.readers;
            self.ring[tail] = Seat { read: 0, max: readers, val: Some(val) };
            self.rleft[tail] = 0;
            // now tell readers that they can read
            let len = self.len;
            self.tail = (tail + 1) % len;
            proof {
                lemma_slot_step(n, m);
                lemma_slot_bound(n, m);
                let post = pre.push(val);
                self.model = Ghost(post);
                assert forall|p: int| n + 1 - m <= p < n + 1 && 0 <= p implies #[trigger] self.seat_holds(p) by {
                    if p == n {
                        assert(post.sent[p] == val);
                        lemma_tally_zero(pre.rxs, Relation::Took, n, pre.cap);
                        lemma_tally_zero(pre.rxs, Relation::Discounted, n, pre.cap);
                    } else {
                        assert(before.seat_holds(p));
                        lemma_slot_distinct(p, n, m);
                        assert(post.sent[p] == pre.sent[p]);
                    }
                }
                assert forall|i: int| n + 1 <= i < m implies #[trigger] self.seat_blank(i) by {
                    assert(before.seat_blank(i));
                    lemma_slot_small(n, m);
                }
                assert(self.pending_ok()) by {
                    assert(before.pending_ok());
                }
                // the writer counts the same readers on the next value
                assert forall|k: int| 0 <= k < pre.rxs.len() implies relates(
                    Relation::Joined,
                    #[trigger] pre.rxs[k],
                    n,
                    pre.cap,
                ) == relates(Relation::Joined, pre.rxs[k], n + 1, pre.cap) by {
                    assert(pre.reader_ok(pre.rxs[k]));
                }
                lemma_tally_ext(pre.rxs, Relation::Joined, n, n + 1, pre.cap);
                assert(post.consistent()) by {
                    assert forall|k: int| 0 <= k < post.rxs.len() implies post.reader_ok(#[trigger] post.rxs[k]) by {
                        assert(!owed(pre.rxs[k], pre.fence(), pre.cap));
                        assert(pre.reader_ok(pre.rxs[k]));
                    }
                }
            }
            return Ok(());
        }
        // there's no room left, so check whether any readers have left,
        // which discounts them on the seats they never took
        self.collect_departures();
        proof {
            self.lemma_fence();
        }
        if fence_read == self.ring[fence].max - self.rleft[fence] {
            // the next seat is now free
            self.broadcast_inner(val)
        } else {
            Err(val)
        }
    }

    /// Broadcasts `val` to every reader if there is room, and hands it back otherwise.
    pub fn try_broadcast(&mut self, val: T) -> (r: Result<(), T>)
        requires
            old(self).wf(),
            !old(self)@.closed,
        ensures
            final(self).wf(),
            final(self).instance() == old(self).instance(),
            ({
                let mid = old(self)@.settle();
                if mid.has_room() {
                    &&& r is Ok
                    &&& final(self)@ == mid.push(val)
                } else {
                    &&& r == Err::<(), T>(val)
                    &&& final(self)@ == mid
                }
            }),
            final(self)@.cap == old(self)@.cap,
            final(self)@.closed == old(self)@.closed,
            final(self)@.rxs.len() == old(self)@.rxs.len(),
            forall|k: int|
                0 <= k < old(self)@.rxs.len() ==> {
                    &&& (#[trigger] final(self)@.rxs[k]).pos == old(self)@.rxs[k].pos
                    &&& final(self)@.rxs[k].join == old(self)@.rxs[k].join
                    &&& final(self)@.rxs[k].gone == old(self)@.rxs[k].gone
                },
            r is Ok ==> final(self)@.sent == old(self)@.sent.push(val),
            r is Err ==> r == Err::<(), T>(val) && final(self)@.sent == old(self)@.sent,
            old(self)@.cap > 0 ==> (r is Ok <==> forall|k: int|
                #[trigger] old(self)@.active(k) ==> old(self)@.tail() - old(self)@.rxs[k].pos < old(self)@.cap),
    {
        proof {
            self.lemma_consistent();
            self.lemma_room_by_backlog();
        }
        self.broadcast_inner(val)
    }

    /// Broadcasts `val` to every reader. Nothing else can free a seat while the
    /// writer holds the bus, so the bus must accept the value.
    pub fn broadcast(&mut self, val: T)
        requires
            old(self).wf(),
            !old(self)@.closed,
            old(self)@.accepts(),
        ensures
            final(self).wf(),
            final(self).instance() == old(self).instance(),
            final(self)@ == old(self)@.settle().push(val),
            final(self)@.cap == old(self)@.cap,
            final(self)@.closed == old(self)@.closed,
            final(self)@.rxs.len() == old(self)@.rxs.len(),
            forall|k: int|
                0 <= k < old(self)@.rxs.len() ==> {
                    &&& (#[trigger] final(self)@.rxs[k]).pos == old(self)@.rxs[k].pos
                    &&& final(self)@.rxs[k].join == old(self)@.rxs[k].join
                    &&& final(self)@.rxs[k].gone == old(self)@.rxs[k].gone
                },
            final(self)@.sent == old(self)@.sent.push(val),
    {
        if let Err(..) = self.broadcast_inner(val) {
            proof {
                assert(false);
            }
        }
    }
}

impl<T: Clone> Bus<T> {
    /// On a well-formed bus of positive capacity, a broadcast is accepted
    /// exactly when every active reader is fewer than `cap` values behind.
    proof fn lemma_room_by_backlog(&self)
        requires
            self.wf(),
        ensures
            self@.cap > 0 ==> (self@.accepts() <==> forall|k: int|
                #[trigger] self@.active(k) ==> self@.tail() - self@.rxs[k].pos < self@.cap),
    {
        let v = self@;
        if v.cap > 0 {
            crate::laws::lemma_room_iff_no_full_reader(v);
            assert forall|k: int| #[trigger] v.active(k) implies v.unread(k).len() == v.tail() - v.rxs[k].pos by {
                assert(v.reader_ok(v.rxs[k]));
            }
        }
    }

    /// Whether the seat after the tail is free, so that the next broadcast
    /// succeeds without processing any departure.
    pub fn has_room(&self) -> (b: bool)
        requires
            self.wf(),
        ensures
            b == self@.has_room(),
            self@.cap > 0 ==> (b <==> forall|k: int|
                0 <= k < self@.rxs.len() && (#[trigger] self@.rxs[k]).cleared is None ==> self@.tail()
                    - self@.rxs[k].pos < self@.cap),
    {
        proof {
            self.lemma_fence();
            let v = self@;
            if v.cap > 0 {
                assert forall|k: int| 0 <= k < v.rxs.len() implies (!owed(#[trigger] v.rxs[k], v.fence(), v.cap)
                    <==> (v.rxs[k].cleared is None ==> v.tail() - v.rxs[k].pos < v.cap)) by {
                    assert(v.reader_ok(v.rxs[k]));
                }
            }
        }
        let fence = (self.tail + 1) % self.len;
        self.ring[fence].read == self.ring[fence].max - self.rleft[fence]
    }

    /// The writer is done: readers receive what was already broadcast, then
    /// `Disconnected` instead of `Empty`.
    pub fn close(&mut self)
        requires
            old(self).wf(),
        ensures
            final(self).wf(),
            final(self).instance() == old(self).instance(),
            final(self)@ == old(self)@.close(),
            final(self)@.closed,
            final(self)@.cap == old(self)@.cap,
            final(self)@.sent == old(self)@.sent,
            final(self)@.rxs == old(self)@.rxs,
    {
        let ghost before = *self;
        self.closed = true;
        proof {
            self.model = Ghost(before.model@.close());
            let n = before.model@.tail() as int;
            let m = self.len as int;
            assert forall|p: int| n - m <= p < n && 0 <= p implies #[trigger] self.seat_holds(p) by {
                assert(before.seat_holds(p));
            }
            assert forall|i: int| n <= i < m implies #[trigger] self.seat_blank(i) by {
                assert(before.seat_blank(i));
            }
            assert(before.pending_ok());
        }
    }
}

} // verus!
