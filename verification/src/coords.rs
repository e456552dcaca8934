//! Reduction of computed pixel positions to in-bounds coordinates.
//!
//! A raw position may round to a negative or out-of-range integer; the
//! reduction is the true mathematical modulo (always non-negative), not the
//! truncating remainder, so the resulting index is in bounds by construction.

use vstd::prelude::*;
use vstd::arithmetic::div_mod::lemma_fundamental_div_mod;
use vstd::arithmetic::div_mod::lemma_fundamental_div_mod_converse_mod;

verus! {

/// The true (Euclidean) remainder of `v` modulo `m`: the unique value in
/// `[0, m)` congruent to `v`, also for negative `v`.
pub fn euclid_rem(v: i64, m: u64) -> (r: u64)
    requires
        1 <= m <= i64::MAX,
    ensures
        r == v as int % m as int,
        r < m,
{
    let mi: i64 = m as i64;
    let t: i64 = v % mi;
    proof {
        if v < 0 {
            let q1 = (-v as int) / (mi as int);
            let s = (-v as int) % (mi as int);
            lemma_fundamental_div_mod(-v as int, mi as int);
            assert(v as int == (-q1 - 1) * (mi as int) + ((mi as int) - s)
                && v as int == -q1 * (mi as int) + -s) by (nonlinear_arith)
                requires
                    (-v as int) == (mi as int) * q1 + s,
            ;
            if s == 0 {
                lemma_fundamental_div_mod_converse_mod(v as int, mi as int, -q1, 0);
            } else {
                lemma_fundamental_div_mod_converse_mod(
                    v as int,
                    mi as int,
                    -q1 - 1,
                    (mi as int) - s,
                );
            }
        }
    }
    if t < 0 {
        (t + mi) as u64
    } else {
        t as u64
    }
}

} // verus!
