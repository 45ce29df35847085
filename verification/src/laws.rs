//! What holds of every bus, stated over the model and proved from the
//! contracts of `try_broadcast`, `broadcast`, `recv`, `add_rx` and `leave`.
use vstd::prelude::*;

use crate::model::{BusView, RxState, owed};
use crate::tally::{Relation, lemma_tally_bound};

verus! {

/// Every send goes to every consumer: when a broadcast of `v` succeeds, `v`
/// is appended to what each active reader has yet to receive, and nothing
/// else changes for it.
pub proof fn lemma_broadcast_reaches_every_reader<T>(pre: BusView<T>, v: T, k: int)
    requires
        pre.consistent(),
        pre.active(k),
    ensures
        pre.settle().push(v).unread(k) == pre.unread(k).push(v),
        pre.settle().push(v).active(k),
        pre.settle().push(v).rxs[k] == pre.rxs[k],
{
    let post = pre.settle().push(v);
    assert(pre.rxs[k].join <= pre.rxs[k].pos <= pre.tail());
    assert(post.rxs[k] == pre.rxs[k]);
    assert(post.unread(k) =~= pre.unread(k).push(v));
}

/// What a reader gets back of a write: a reader that has received everything
/// so far can take a value right after a successful broadcast, and that value
/// is the one broadcast.
pub proof fn lemma_send_then_receive<T>(pre: BusView<T>, v: T, k: int)
    requires
        pre.consistent(),
        pre.active(k),
        pre.cap > 0,
        pre.unread(k).len() == 0,
    ensures
        pre.settle().push(v).can_take(k),
        pre.settle().push(v).sent[pre.settle().push(v).rxs[k].pos as int] == v,
        pre.settle().push(v).advance(k).unread(k).len() == 0,
{
    lemma_broadcast_reaches_every_reader(pre, v, k);
    let post = pre.settle().push(v);
    assert(post.unread(k) =~= seq![v]);
    assert(post.unread(k)[0] == post.sent[post.rxs[k].pos as int]);
    assert(post.advance(k).unread(k) =~= post.unread(k).drop_first());
}

/// Readers receive in order: a reader that can take a value gets the oldest
/// value it has not received, and that value leaves its backlog.
pub proof fn lemma_receive_takes_oldest<T>(pre: BusView<T>, k: int)
    requires
        pre.consistent(),
        pre.active(k),
        pre.can_take(k),
    ensures
        pre.unread(k).len() > 0,
        pre.sent[pre.rxs[k].pos as int] == pre.unread(k)[0],
        pre.advance(k).unread(k) == pre.unread(k).drop_first(),
        pre.advance(k).active(k),
{
    assert(pre.advance(k).unread(k) =~= pre.unread(k).drop_first());
}

/// A reader can take a value exactly when it has not yet received everything
/// broadcast since it joined (a bus of capacity 0 never delivers).
pub proof fn lemma_receive_fails_only_when_caught_up<T>(pre: BusView<T>, k: int)
    requires
        pre.consistent(),
        pre.active(k),
    ensures
        pre.can_take(k) <==> pre.cap > 0 && pre.unread(k).len() > 0,
{
}

/// Readers are independent: one reader taking a value, or leaving, changes
/// nothing for any other reader.
pub proof fn lemma_readers_independent<T>(pre: BusView<T>, k: int, j: int)
    requires
        pre.consistent(),
        pre.active(k),
        0 <= j < pre.rxs.len(),
        j != k,
    ensures
        pre.advance(k).rxs[j] == pre.rxs[j],
        pre.advance(k).unread(j) == pre.unread(j),
        pre.depart(k).rxs[j] == pre.rxs[j],
        pre.depart(k).unread(j) == pre.unread(j),
{
}

/// The bus is bounded: no active reader ever has more than `cap` values
/// waiting for it.
pub proof fn lemma_backlog_bounded<T>(v: BusView<T>, k: int)
    requires
        v.consistent(),
        v.active(k),
        v.cap > 0,
    ensures
        v.unread(k).len() <= v.cap,
{
}

/// The bus is full exactly when some active reader is `cap` values behind: a
/// broadcast succeeds when every active reader has fewer than `cap` values
/// waiting, and readers that left never hold it back (the writer processes
/// their departures when it runs out of room).
pub proof fn lemma_room_iff_no_full_reader<T>(v: BusView<T>)
    requires
        v.consistent(),
        v.cap > 0,
    ensures
        v.accepts() <==> forall|k: int| #[trigger] v.active(k) ==> v.unread(k).len() < v.cap,
{
    let c = v.settle();
    assert(c.fence() == v.fence());
    assert forall|k: int| v.active(k) implies c.rxs[k] == v.rxs[k] by {}
    if v.accepts() {
        assert forall|k: int| #[trigger] v.active(k) implies v.unread(k).len() < v.cap by {
            assert(!owed(c.rxs[k], c.fence(), c.cap));
            assert(v.reader_ok(v.rxs[k]));
        }
    }
    if forall|k: int| #[trigger] v.active(k) ==> v.unread(k).len() < v.cap {
        assert forall|k: int| 0 <= k < c.rxs.len() implies !owed(#[trigger] c.rxs[k], c.fence(), c.cap) by {
            assert(v.reader_ok(v.rxs[k]));
            if v.active(k) {
                assert(v.unread(k).len() < v.cap);
            } else if !v.has_room() {
                assert(c.rxs[k].cleared is Some);
            } else {
                assert(!owed(v.rxs[k], v.fence(), v.cap));
            }
        }
    }
}

/// A bus on which every reader has left (or that never had one) accepts every
/// broadcast.
pub proof fn lemma_no_active_reader_never_full<T>(v: BusView<T>)
    requires
        v.consistent(),
        v.cap > 0,
        forall|k: int| 0 <= k < v.rxs.len() ==> (#[trigger] v.rxs[k]).gone,
    ensures
        v.accepts(),
{
    lemma_room_iff_no_full_reader(v);
}

/// The writer counts at most every reader ever added.
pub proof fn lemma_listeners_bounded<T>(v: BusView<T>)
    ensures
        v.listeners() <= v.rxs.len(),
{
    lemma_tally_bound(v.rxs, Relation::Joined, v.tail() as int, v.cap);
}

/// A new reader starts with nothing to receive and is active.
pub proof fn lemma_new_reader_starts_empty<T>(v: BusView<T>)
    requires
        v.consistent(),
    ensures
        v.add_reader().active(v.rxs.len() as int),
        v.add_reader().unread(v.rxs.len() as int).len() == 0,
        v.add_reader().consistent(),
{
    let post = v.add_reader();
    assert forall|k: int| 0 <= k < post.rxs.len() implies {
        let r = #[trigger] post.rxs[k];
        &&& r.join <= r.pos <= post.tail()
        &&& post.cap > 0 && r.cleared is None ==> post.tail() - r.pos <= post.cap
        &&& r.cleared is Some ==> r.gone && r.pos <= r.cleared->0 <= post.tail()
        &&& !r.gone ==> r.cleared is None
    } by {
        if k < v.rxs.len() {
            assert(post.rxs[k] == v.rxs[k]);
        }
    }
}

/// Closing the bus takes nothing from the readers: each still receives every
/// value broadcast before the close, and only then is told the bus is closed.
pub proof fn lemma_close_keeps_pending<T>(v: BusView<T>, k: int)
    requires
        v.consistent(),
        v.active(k),
    ensures
        v.close().unread(k) == v.unread(k),
        v.close().can_take(k) == v.can_take(k),
        v.close().closed,
{
}

/// A new bus buffers `cap` values for each reader, holds no value, has no
/// reader and is open.
pub proof fn lemma_empty_bus<T>(cap: nat)
    ensures
        BusView::<T>::empty(cap).cap == cap,
        BusView::<T>::empty(cap).sent.len() == 0,
        BusView::<T>::empty(cap).rxs.len() == 0,
        !BusView::<T>::empty(cap).closed,
        BusView::<T>::empty(cap).consistent(),
{
}

/// On a bus whose readers receive nothing, the first `cap` broadcasts after a
/// reader joined all succeed: a reader that has fewer than `cap` values waiting
/// never holds the writer back.
pub proof fn lemma_capacity_is_len<T>(v: BusView<T>)
    requires
        v.consistent(),
        v.cap > 0,
        forall|k: int| #[trigger] v.active(k) ==> v.tail() - v.rxs[k].pos < v.cap,
    ensures
        v.accepts(),
{
    lemma_room_iff_no_full_reader(v);
}

/// Adding a reader changes nothing but the list of readers, which gains one
/// active reader at the tail: the bus stays open, its capacity and its values
/// are unchanged.
pub proof fn lemma_add_reader_frame<T>(v: BusView<T>)
    ensures
        v.add_reader().cap == v.cap,
        v.add_reader().sent == v.sent,
        v.add_reader().closed == v.closed,
        v.add_reader().rxs.len() == v.rxs.len() + 1,
        forall|j: int| 0 <= j < v.rxs.len() ==> #[trigger] v.add_reader().rxs[j] == v.rxs[j],
        v.add_reader().active(v.rxs.len() as int),
        v.add_reader().rxs[v.rxs.len() as int].pos == v.tail(),
        v.add_reader().rxs[v.rxs.len() as int].join == v.tail(),
{
}

/// A broadcast appends the value and changes nothing else: the bus stays open,
/// and no reader moves.
pub proof fn lemma_push_frame<T>(v: BusView<T>, x: T)
    ensures
        v.push(x).cap == v.cap,
        v.push(x).sent == v.sent.push(x),
        v.push(x).tail() == v.tail() + 1,
        v.push(x).rxs == v.rxs,
        v.push(x).closed == v.closed,
{
}

/// Processing departures keeps the bus open and its values, and moves no
/// reader: it only records, for readers that left, that the writer noticed.
pub proof fn lemma_settle_frame<T>(v: BusView<T>)
    ensures
        v.settle().cap == v.cap,
        v.settle().sent == v.sent,
        v.settle().closed == v.closed,
        v.settle().fence() == v.fence(),
        v.settle().rxs.len() == v.rxs.len(),
        forall|k: int|
            0 <= k < v.rxs.len() ==> {
                &&& (#[trigger] v.settle().rxs[k]).pos == v.rxs[k].pos
                &&& v.settle().rxs[k].join == v.rxs[k].join
                &&& v.settle().rxs[k].gone == v.rxs[k].gone
                &&& !v.rxs[k].gone ==> v.settle().rxs[k] == v.rxs[k]
            },
{
}

/// Taking a value moves only that reader, one position forward: the bus stays
/// open, its capacity and values are unchanged, and no other reader moves.
pub proof fn lemma_advance_frame<T>(v: BusView<T>, k: int)
    requires
        0 <= k < v.rxs.len(),
    ensures
        v.advance(k).cap == v.cap,
        v.advance(k).sent == v.sent,
        v.advance(k).closed == v.closed,
        v.advance(k).rxs.len() == v.rxs.len(),
        v.advance(k).rxs[k].pos == v.rxs[k].pos + 1,
        v.advance(k).rxs[k].join == v.rxs[k].join,
        v.advance(k).rxs[k].gone == v.rxs[k].gone,
        v.advance(k).rxs[k].cleared == v.rxs[k].cleared,
        forall|j: int| 0 <= j < v.rxs.len() && j != k ==> #[trigger] v.advance(k).rxs[j] == v.rxs[j],
{
}

/// A reader that leaves is no longer active; nothing else changes: the bus
/// stays open, its values stay, and no reader moves.
pub proof fn lemma_depart_frame<T>(v: BusView<T>, k: int)
    requires
        0 <= k < v.rxs.len(),
    ensures
        !v.depart(k).active(k),
        v.depart(k).cap == v.cap,
        v.depart(k).sent == v.sent,
        v.depart(k).closed == v.closed,
        v.depart(k).rxs.len() == v.rxs.len(),
        v.depart(k).rxs[k].pos == v.rxs[k].pos,
        v.depart(k).rxs[k].join == v.rxs[k].join,
        v.depart(k).rxs[k].cleared == v.rxs[k].cleared,
        forall|j: int| 0 <= j < v.rxs.len() && j != k ==> #[trigger] v.depart(k).rxs[j] == v.rxs[j],
{
}

/// Once a reader has left, it no longer holds the writer back: a broadcast
/// succeeds whenever every remaining reader has fewer than `cap` values waiting.
pub proof fn lemma_leave_releases_writer<T>(v: BusView<T>, k: int)
    requires
        v.consistent(),
        v.cap > 0,
        v.active(k),
        forall|j: int| #[trigger] v.active(j) && j != k ==> v.unread(j).len() < v.cap,
    ensures
        v.depart(k).accepts(),
{
    let d = v.depart(k);
    let r = v.rxs[k];
    let rr = RxState { join: r.join, pos: r.pos, gone: true, cleared: r.cleared };
    assert(v.reader_ok(rr));
    v.lemma_with_reader_consistent(k, rr);
    assert forall|j: int| #[trigger] d.active(j) implies d.unread(j).len() < d.cap by {
        assert(j != k);
        assert(d.rxs[j] == v.rxs[j]);
        assert(v.active(j));
    }
    lemma_room_iff_no_full_reader(d);
}

/// Closing only marks the bus closed.
pub proof fn lemma_close_frame<T>(v: BusView<T>)
    ensures
        v.close().closed,
        v.close().cap == v.cap,
        v.close().sent == v.sent,
        v.close().rxs == v.rxs,
{
}

} // verus!
