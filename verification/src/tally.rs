//! Counting readers that stand in a given relation to one logical position of
//! the ring. The writer's bookkeeping on each seat (`max`, `read` and the
//! per-seat `rleft` compensation) is a set of such counts.
use vstd::prelude::*;

use crate::model::{RxState, counted, discounted, owed};

verus! {

/// The four ways a reader can relate to the value at logical position `q`.
pub enum Relation {
    /// The writer counts the reader on `q` (its `max`).
    Joined,
    /// The reader has already taken the value at `q`.
    Took,
    /// The reader left before taking `q`, and the writer has already discounted it.
    Discounted,
    /// The reader is still owed the value at `q`: the seat is not free.
    Owed,
}

/// Whether reader `r` stands in relation `rel` to logical position `q`.
pub open spec fn relates(rel: Relation, r: RxState, q: int, cap: nat) -> bool {
    match rel {
        Relation::Joined => counted(r, q),
        Relation::Took => counted(r, q) && r.pos > q,
        Relation::Discounted => counted(r, q) && r.pos <= q && discounted(r, q, cap),
        Relation::Owed => owed(r, q, cap),
    }
}

/// The number of readers in `s` that stand in relation `rel` to position `q`.
pub open spec fn tally(s: Seq<RxState>, rel: Relation, q: int, cap: nat) -> nat
    decreases s.len(),
{
    if s.len() == 0 {
        0
    } else {
        tally(s.drop_last(), rel, q, cap) + if relates(rel, s.last(), q, cap) {
            1nat
        } else {
            0nat
        }
    }
}

/// Registered readers split into those that took the value, those that were
/// discounted after leaving, and those still owed it.
pub proof fn lemma_tally_partition(s: Seq<RxState>, q: int, cap: nat)
    ensures
        tally(s, Relation::Joined, q, cap) == tally(s, Relation::Took, q, cap) + tally(
            s,
            Relation::Discounted,
            q,
            cap,
        ) + tally(s, Relation::Owed, q, cap),
    decreases s.len(),
{
    if s.len() > 0 {
        lemma_tally_partition(s.drop_last(), q, cap);
    }
}

/// A tally is zero exactly when no reader stands in the relation.
pub proof fn lemma_tally_zero(s: Seq<RxState>, rel: Relation, q: int, cap: nat)
    ensures
        tally(s, rel, q, cap) == 0 <==> forall|k: int|
            0 <= k < s.len() ==> !relates(rel, #[trigger] s[k], q, cap),
    decreases s.len(),
{
    if s.len() > 0 {
        let t = s.drop_last();
        lemma_tally_zero(t, rel, q, cap);
        if tally(s, rel, q, cap) == 0 {
            assert forall|k: int| 0 <= k < s.len() implies !relates(rel, #[trigger] s[k], q, cap) by {
                if k < s.len() - 1 {
                    assert(s[k] == t[k]);
                }
            }
        } else {
            if !relates(rel, s.last(), q, cap) {
                let k = choose|k: int| 0 <= k < t.len() && relates(rel, #[trigger] t[k], q, cap);
                assert(s[k] == t[k]);
            }
        }
    }
}

/// Appending a reader adds its own contribution.
pub proof fn lemma_tally_push(s: Seq<RxState>, x: RxState, rel: Relation, q: int, cap: nat)
    ensures
        tally(s.push(x), rel, q, cap) == tally(s, rel, q, cap) + if relates(rel, x, q, cap) {
            1nat
        } else {
            0nat
        },
{
    assert(s.push(x).drop_last() =~= s);
}

/// Replacing one reader changes the tally by the difference of its contributions.
pub proof fn lemma_tally_update(s: Seq<RxState>, k: int, x: RxState, rel: Relation, q: int, cap: nat)
    requires
        0 <= k < s.len(),
    ensures
        tally(s.update(k, x), rel, q, cap) + (if relates(rel, s[k], q, cap) {
            1nat
        } else {
            0nat
        }) == tally(s, rel, q, cap) + (if relates(rel, x, q, cap) {
            1nat
        } else {
            0nat
        }),
    decreases s.len(),
{
    let u = s.update(k, x);
    if k == s.len() - 1 {
        assert(u.drop_last() =~= s.drop_last());
    } else {
        assert(u.drop_last() =~= s.drop_last().update(k, x));
        lemma_tally_update(s.drop_last(), k, x, rel, q, cap);
    }
}

/// Replacing a reader by one that relates in the same way leaves the tally unchanged.
pub proof fn lemma_tally_update_same(s: Seq<RxState>, k: int, x: RxState, rel: Relation, q: int, cap: nat)
    requires
        0 <= k < s.len(),
        relates(rel, s[k], q, cap) == relates(rel, x, q, cap),
    ensures
        tally(s.update(k, x), rel, q, cap) == tally(s, rel, q, cap),
{
    lemma_tally_update(s, k, x, rel, q, cap);
}

/// A tally counts every reader when every reader stands in the relation.
pub proof fn lemma_tally_full(s: Seq<RxState>, rel: Relation, q: int, cap: nat)
    requires
        forall|k: int| 0 <= k < s.len() ==> relates(rel, #[trigger] s[k], q, cap),
    ensures
        tally(s, rel, q, cap) == s.len(),
    decreases s.len(),
{
    if s.len() > 0 {
        let t = s.drop_last();
        assert forall|k: int| 0 <= k < t.len() implies relates(rel, #[trigger] t[k], q, cap) by {
            assert(t[k] == s[k]);
        }
        lemma_tally_full(t, rel, q, cap);
    }
}

/// Two tallies agree when every reader relates the same way to both positions.
pub proof fn lemma_tally_ext(s: Seq<RxState>, rel: Relation, q1: int, q2: int, cap: nat)
    requires
        forall|k: int|
            0 <= k < s.len() ==> relates(rel, #[trigger] s[k], q1, cap) == relates(rel, s[k], q2, cap),
    ensures
        tally(s, rel, q1, cap) == tally(s, rel, q2, cap),
    decreases s.len(),
{
    if s.len() > 0 {
        let t = s.drop_last();
        assert forall|k: int| 0 <= k < t.len() implies relates(rel, #[trigger] t[k], q1, cap) == relates(
            rel,
            t[k],
            q2,
            cap,
        ) by {
            assert(t[k] == s[k]);
        }
        lemma_tally_ext(t, rel, q1, q2, cap);
    }
}

/// A tally never exceeds the number of readers.
pub proof fn lemma_tally_bound(s: Seq<RxState>, rel: Relation, q: int, cap: nat)
    ensures
        tally(s, rel, q, cap) <= s.len(),
    decreases s.len(),
{
    if s.len() > 0 {
        lemma_tally_bound(s.drop_last(), rel, q, cap);
    }
}

} // verus!
