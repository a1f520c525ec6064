//! Mapping one raw random integer into an inclusive range, without rejection.

use vstd::prelude::*;

verus! {

/// The value that `bounded_i32` returns: `raw` wrapped into `[min, max]`.
pub open spec fn wrap_into(raw: int, min: int, max: int) -> int
    recommends
        min <= max,
{
    min + (raw - min) % (max - min + 1)
}

/// Maps `v` into `[min, max]` by modular wrap-around: consumes exactly one
/// raw value and never loops.
pub fn bounded_i32(v: i32, min: i32, max: i32) -> (r: i32)
    requires
        min <= max,
    ensures
        min <= r <= max,
        r == wrap_into(v as int, min as int, max as int),
{
    let range_size: i64 = max as i64 - min as i64 + 1;
    let mut x: i64 = v as i64 - min as i64;
    if x < 0 {
        let steps: i64 = (-x) / range_size + 1;
        proof {
            lemma_shift_above(x as int, range_size as int);
        }
        x = x + range_size * steps;
    }
    let off: i64 = x % range_size;
    proof {
        lemma_wrap_shift(v as int - min as int, x as int, range_size as int);
    }
    (min as i64 + off) as i32
}

proof fn lemma_shift_above(x: int, n: int)
    requires
        x < 0,
        1 <= n <= 0x1_0000_0000,
        -0x1_0000_0000 <= x,
    ensures
        0 <= x + n * ((-x) / n + 1) < 0x2_0000_0000,
        (x + n * ((-x) / n + 1) - x) % n == 0,
{
    let q = (-x) / n;
    assert(q * n <= -x < q * n + n) by (nonlinear_arith)
        requires
            q == (-x) / n,
            n >= 1,
            -x > 0,
    ;
    assert(n * (q + 1) == q * n + n) by (nonlinear_arith);
    assert(0 <= q <= 0x1_0000_0000) by (nonlinear_arith)
        requires
            q * n <= -x,
            -x <= 0x1_0000_0000,
            n >= 1,
            q == (-x) / n,
            -x > 0,
    ;
    assert((n * (q + 1)) % n == 0) by (nonlinear_arith)
        requires
            n >= 1,
    ;
}

proof fn lemma_wrap_shift(d: int, x: int, n: int)
    requires
        n >= 1,
        (x - d) % n == 0,
    ensures
        x % n == d % n,
{
    vstd::arithmetic::div_mod::lemma_fundamental_div_mod(x - d, n);
    vstd::arithmetic::div_mod::lemma_mod_multiples_vanish((x - d) / n, d, n);
}

} // verus!
