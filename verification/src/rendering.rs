//! Durations rendered in milliseconds with one decimal.
//!
//! A duration is divided in binary64 arithmetic and the quotient printed with one digit behind the
//! point, so the digit printed is that of the binary quotient, not of the exact one.

use crate::text;
use vstd::prelude::*;
use vstd::string::*;

verus! {

/// The quotient rounded to the nearest integer, ties to the even one.
pub open spec fn nearest_even(n: nat, d: nat) -> nat {
    let q = n / d;
    let r = n % d;
    if 2 * r < d {
        q
    } else if 2 * r > d {
        q + 1
    } else if q % 2 == 0 {
        q
    } else {
        q + 1
    }
}

/// Two to the power of 53: below it every integer is a binary64 value.
pub open spec fn exact_limit() -> nat {
    0x20_0000_0000_0000
}

/// The distance of the binary64 values around `n`, found by doubling from `step`.
pub open spec fn step_around(n: nat, step: nat) -> nat
    decreases (if n < exact_limit() * step {
        0
    } else {
        n - step + 1
    }),
{
    if step == 0 || n < exact_limit() * step {
        step
    } else {
        step_around(n, 2 * step)
    }
}

/// The binary64 value nearest to an integer.
pub open spec fn nearest_double(n: nat) -> nat {
    let step = step_around(n, 1);
    nearest_even(n, step) * step
}

/// A number and a unit doubled together until the number has the bits that a quotient by 1000
/// needs.
pub open spec fn doubled(n: nat, unit: nat) -> (nat, nat)
    decreases (if n >= 2000 * exact_limit() {
        0
    } else {
        2000 * exact_limit() - n
    }),
{
    if n == 0 || n >= 2000 * exact_limit() {
        (n, unit)
    } else {
        doubled(2 * n, 2 * unit)
    }
}

/// The tenths of a millisecond that are printed for so many microseconds.
///
/// The quotient's significand is `nearest_even(n, 4000)` for the doubled number `n`; its value is
/// that times four over the doubled unit.
pub open spec fn printed_tenths(us: nat) -> nat {
    let (n, unit) = doubled(nearest_double(us), 1);
    nearest_even(40 * nearest_even(n, 4000), unit)
}

/// A duration in microseconds as milliseconds with one decimal.
pub open spec fn one_decimal(us: nat) -> Seq<char> {
    text::decimal(printed_tenths(us) / 10) + seq!['.', text::digit(printed_tenths(us) % 10)]
}

fn round_even(n: u128, d: u128) -> (r: u128)
    requires
        d > 0,
        n < 0x1_0000_0000_0000_0000_0000_0000,
        d < 0x1_0000_0000_0000_0000_0000_0000,
    ensures
        r == nearest_even(n as nat, d as nat),
        r <= n / d + 1,
{
    let q = n / d;
    let r = n % d;
    assert(q <= n) by (nonlinear_arith)
        requires
            q == n / d,
            d > 0,
    ;
    if 2 * r < d {
        q
    } else if 2 * r > d {
        q + 1
    } else if q % 2 == 0 {
        q
    } else {
        q + 1
    }
}

fn as_double(us: u64) -> (r: u128)
    ensures
        r == nearest_double(us as nat),
        r <= 0x1_0000_0000_0000_0000,
{
    let n = us as u128;
    let mut step: u128 = 1;
    while n >= 0x20_0000_0000_0000 * step
        invariant
            n == us,
            1 <= step <= 2048,
            step_around(n as nat, 1) == step_around(n as nat, step as nat),
            step == 1 || step == 2 || step == 4 || step == 8 || step == 16 || step == 32 || step
                == 64 || step == 128 || step == 256 || step == 512 || step == 1024 || step == 2048,
        decreases 4096 - step,
    {
        step = 2 * step;
    }
    let q = round_even(n, step);
    proof {
        assert(q * step <= 0x1_0000_0000_0000_0000) by (nonlinear_arith)
            requires
                n < 0x1_0000_0000_0000_0000,
                q <= n / step + 1,
                step == 1 || step == 2 || step == 4 || step == 8 || step == 16 || step == 32
                    || step == 64 || step == 128 || step == 256 || step == 512 || step == 1024
                    || step == 2048,
        ;
        assert(0 <= q * step) by (nonlinear_arith)
            requires
                q >= 0,
                step >= 0,
        ;
    }
    q * step
}

fn tenths(us: u64) -> (r: u64)
    ensures
        r == printed_tenths(us as nat),
{
    let mut n = as_double(us);
    let ghost start = n;
    let mut unit: u128 = 1;
    while n != 0 && n < 18_014_398_509_481_984_000
        invariant
            n <= 2 * 18_014_398_509_481_984_000,
            start == nearest_double(us as nat),
            doubled(start as nat, 1) == doubled(n as nat, unit as nat),
            n == start * unit,
            1 <= unit,
            n != 0 ==> unit <= n,
            n == 0 ==> unit == 1,
        decreases 2 * 18_014_398_509_481_984_000 - n,
    {
        n = 2 * n;
        unit = 2 * unit;
        proof {
            let (s, u) = (start as int, unit as int);
            assert(s * u == 2 * (s * (u / 2))) by (nonlinear_arith)
                requires
                    u % 2 == 0,
            ;
        }
    }
    let m = round_even(n, 4000);
    let r = round_even(40 * m, unit);
    proof {
        assert(n <= start * unit);
        assert(start <= 0x1_0000_0000_0000_0000);
        lemma_tenths_bound(start as int, unit as int, n as int, m as int);
    }
    r as u64
}

proof fn lemma_tenths_bound(start: int, unit: int, n: int, m: int)
    requires
        0 <= start <= 0x1_0000_0000_0000_0000,
        unit >= 1,
        n == start * unit,
        m <= n / 4000 + 1,
        m >= 0,
    ensures
        (40 * m) / unit + 1 <= 0x1000_0000_0000_0000,
{
    assert(40 * m <= n / 100 + 40);
    assert(n / 100 + 40 <= (start / 100 + 1) * unit + 40) by (nonlinear_arith)
        requires
            n == start * unit,
            unit >= 1,
            start >= 0,
    ;
    assert((start / 100 + 1) * unit + 40 <= (start / 100 + 41) * unit) by (nonlinear_arith)
        requires
            unit >= 1,
    ;
    assert((40 * m) / unit <= start / 100 + 41) by (nonlinear_arith)
        requires
            40 * m <= (start / 100 + 41) * unit,
            unit >= 1,
    ;
}

/// Append a duration in microseconds as milliseconds with one decimal.
pub fn append_one_decimal(out: &mut String, us: u64)
    ensures
        final(out)@ == old(out)@ + one_decimal(us as nat),
{
    proof {
        reveal_strlit(".");
    }
    let t = tenths(us);
    text::append_decimal(out, t / 10);
    out.append(".");
    text::append_decimal(out, t % 10);
    assert(out@ =~= old(out)@ + one_decimal(us as nat));
}

proof fn lemma_nearest(n: int, d: int)
    requires
        n >= 0,
        d > 0,
    ensures
        -d <= 2 * (nearest_even(n as nat, d as nat) * d - n) <= d,
{
    let q = n / d;
    let r = n % d;
    assert(n == q * d + r && 0 <= r < d && (q + 1) * d == q * d + d) by (nonlinear_arith)
        requires
            d > 0,
            q == n / d,
            r == n % d,
    ;
}

proof fn lemma_doubled(n: nat, unit: nat)
    requires
        n > 0,
        unit > 0,
    ensures
        ({
            let (m, u) = doubled(n, unit);
            &&& m >= 2000 * exact_limit()
            &&& u > 0
            &&& m * unit == n * u
        }),
    decreases (if n >= 2000 * exact_limit() {
        0
    } else {
        2000 * exact_limit() - n
    }),
{
    if n < 2000 * exact_limit() {
        lemma_doubled(2 * n, 2 * unit);
        let (m, u) = doubled(n, unit);
        assert(m * (2 * unit) == (2 * n) * u);
        assert(m * unit == n * u) by (nonlinear_arith)
            requires
                m * (2 * unit) == (2 * n) * u,
        ;
    }
}

/// A duration below two to the power of 53 microseconds, some 285 years, is printed as the nearest
/// tenth of a millisecond: the number printed is off by half of one at most.
pub proof fn law_printed_tenths_are_the_nearest(us: nat)
    requires
        us < 0x20_0000_0000_0000,
    ensures
        -50 <= 100 * printed_tenths(us) - us <= 50,
        one_decimal(us) == text::decimal(printed_tenths(us) / 10) + "."@ + text::decimal(
            printed_tenths(us) % 10,
        ),
{
    reveal_strlit(".");
    assert(step_around(us, 1) == 1);
    assert(nearest_double(us) == us) by {
        assert(us / 1 == us && us % 1 == 0);
    }
    let (n, unit) = doubled(us, 1);
    let m = nearest_even(n, 4000);
    let r = nearest_even(40 * m, unit);
    assert(one_decimal(us) =~= text::decimal(r / 10) + "."@ + text::decimal(r % 10)) by {
        text::law_decimal_reads_back(r % 10);
    }
    if us == 0 {
        assert(n == 0 && unit == 1);
        lemma_nearest(0, 4000);
        assert(m == 0);
        lemma_nearest(0, 1);
        assert(r == 0);
    } else {
        lemma_doubled(us, 1);
        assert(n == us * unit);
        lemma_nearest(n as int, 4000);
        lemma_nearest((40 * m) as int, unit as int);
        let (a, u, x, y) = (us as int, unit as int, r as int, m as int);
        assert(u > 2000) by (nonlinear_arith)
            requires
                a * u >= 2000 * 0x20_0000_0000_0000,
                0 < a < 0x20_0000_0000_0000,
                u > 0,
        ;
        assert(-50 <= 100 * x - a <= 50) by (nonlinear_arith)
            requires
                u > 2000,
                -4000 <= 2 * (y * 4000 - a * u) <= 4000,
                -u <= 2 * (x * u - 40 * y) <= u,
        ;
    }
}

} // verus!
