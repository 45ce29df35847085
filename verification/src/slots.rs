//! Where a logical position lands in a ring of `m` seats.
use vstd::prelude::*;
use vstd::arithmetic::div_mod::{
    lemma_add_mod_noop_right,
    lemma_fundamental_div_mod,
    lemma_mod_pos_bound,
    lemma_mod_sub_multiples_vanish,
    lemma_small_mod,
};

verus! {

/// Two positions less than `m` apart land on different seats.
pub proof fn lemma_slot_distinct(p: int, n: int, m: int)
    requires
        m > 0,
        0 <= p,
        n - m < p < n,
    ensures
        p % m != n % m,
{
    lemma_fundamental_div_mod(p, m);
    lemma_fundamental_div_mod(n, m);
    lemma_mod_pos_bound(p, m);
    lemma_mod_pos_bound(n, m);
    let a = p / m;
    let b = n / m;
    if p % m == n % m {
        assert(n - p == m * (b - a)) by (nonlinear_arith)
            requires
                p == m * a + p % m,
                n == m * b + n % m,
                p % m == n % m,
        ;
        assert(false) by (nonlinear_arith)
            requires
                n - p == m * (b - a),
                0 < n - p < m,
                m > 0,
        ;
    }
}

/// Stepping one seat forward in the ring follows stepping one position forward.
pub proof fn lemma_slot_step(x: int, m: int)
    requires
        m > 0,
    ensures
        (x % m + 1) % m == (x + 1) % m,
{
    lemma_add_mod_noop_right(1, x, m);
}

/// A seat index is inside the ring.
pub proof fn lemma_slot_bound(x: int, m: int)
    requires
        m > 0,
        0 <= x,
    ensures
        0 <= x % m < m,
{
    lemma_mod_pos_bound(x, m);
}

/// Positions before the first wrap land on the seat of the same number.
pub proof fn lemma_slot_small(x: int, m: int)
    requires
        0 <= x < m,
    ensures
        x % m == x,
{
    lemma_small_mod(x as nat, m as nat);
}

/// Positions one ring length apart land on the same seat.
pub proof fn lemma_slot_wrap(x: int, m: int)
    requires
        m > 0,
    ensures
        (x - m) % m == x % m,
{
    lemma_mod_sub_multiples_vanish(x, m);
}

} // verus!
