//! Facts about division with remainder that the sector arithmetic rests on.

use vstd::arithmetic::div_mod::{
    lemma_fundamental_div_mod, lemma_fundamental_div_mod_converse_div,
    lemma_fundamental_div_mod_converse_mod, lemma_mod_bound,
};
use vstd::prelude::*;

verus! {

/// A number written as `q * d + r` with `0 <= r < d` has quotient `q` and remainder `r`.
pub proof fn lemma_quotient_remainder(q: int, d: int, r: int)
    requires
        0 < d,
        0 <= r < d,
    ensures
        (q * d + r) / d == q,
        (q * d + r) % d == r,
{
    lemma_fundamental_div_mod_converse_div(q * d + r, d, q, r);
    lemma_fundamental_div_mod_converse_mod(q * d + r, d, q, r);
}

/// Every number is its quotient times the divisor plus its remainder, and the
/// remainder lies below the divisor.
pub proof fn lemma_split(x: int, d: int)
    requires
        0 < d,
    ensures
        x == (x / d) * d + x % d,
        0 <= x % d < d,
{
    lemma_fundamental_div_mod(x, d);
    lemma_mod_bound(x, d);
    assert(d * (x / d) == (x / d) * d) by (nonlinear_arith);
}

/// A quotient is at least `q` when the dividend is at least `q` times the divisor.
pub proof fn lemma_quotient_at_least(x: int, d: int, q: int)
    requires
        0 < d,
        q * d <= x,
    ensures
        q <= x / d,
{
    lemma_split(x, d);
    if x / d < q {
        assert((x / d + 1) * d <= q * d) by (nonlinear_arith)
            requires
                x / d + 1 <= q,
                0 < d,
        ;
        assert((x / d + 1) * d == (x / d) * d + d) by (nonlinear_arith);
    }
}

/// A quotient is below `q` when the dividend is below `q` times the divisor.
pub proof fn lemma_quotient_below(x: int, d: int, q: int)
    requires
        0 < d,
        x < q * d,
    ensures
        x / d < q,
{
    lemma_split(x, d);
    if x / d >= q {
        assert(q * d <= (x / d) * d) by (nonlinear_arith)
            requires
                q <= x / d,
                0 < d,
        ;
    }
}

} // verus!
