//! Seconds given as IEEE 754 doubles, turned into whole milliseconds.
//!
//! A double is held as its bit pattern. Bit patterns of doubles that are not negative are in the
//! order of the numbers that they stand for.
use vstd::arithmetic::{div_mod, power2};
use vstd::prelude::*;

verus! {

/// The first bit pattern of a negative double, which is negative zero.
pub const SIGN: u64 = 0x8000_0000_0000_0000;

/// Two to the power of 52, the weight of the leading bit of a significand.
pub const LEAD: u64 = 0x10_0000_0000_0000;

/// The exponent field of a double that is not negative.
pub open spec fn exponent_field(bits: u64) -> int {
    bits as int / LEAD as int
}

/// The significand of a double that is not negative, as an integer.
pub open spec fn significand(bits: u64) -> nat {
    if exponent_field(bits) == 0 {
        bits as nat
    } else {
        (LEAD + bits % LEAD) as nat
    }
}

/// The power of two by which the significand is scaled.
pub open spec fn exponent(bits: u64) -> int {
    if exponent_field(bits) == 0 {
        -1074
    } else {
        exponent_field(bits) - 1075
    }
}

/// The distance between neighbouring doubles near the integer `p`, where it is at least one.
pub open spec fn spacing(p: nat) -> nat
    decreases p,
{
    if p < 2 * LEAD {
        1
    } else {
        2 * spacing(p / 2)
    }
}

/// The multiple of `unit` nearest to `p`; half way between two, the even multiple.
pub open spec fn round_half_even(p: nat, unit: nat) -> nat {
    let q = p / unit;
    let r = p % unit;
    if 2 * r > unit || (2 * r == unit && q % 2 == 1) {
        (q + 1) * unit
    } else {
        q * unit
    }
}

/// The significand of a thousand times the double, rounded to a double.
pub open spec fn thousandfold(bits: u64) -> nat {
    let p = 1000 * significand(bits);
    round_half_even(p, spacing(p))
}

/// `n` scaled by a power of two, and cut down to an integer.
pub open spec fn scaled(n: nat, k: int) -> nat {
    if k >= 0 {
        n * power2::pow2(k as nat)
    } else {
        n / power2::pow2((-k) as nat)
    }
}

/// The milliseconds of a double of seconds that is not negative: a thousand times the double, as
/// a product of doubles is rounded, cut down to an integer and held to 64 bits.
pub open spec fn seconds_to_ms(bits: u64) -> u64 {
    let ms = scaled(thousandfold(bits), exponent(bits));
    if ms > u64::MAX {
        u64::MAX
    } else {
        ms as u64
    }
}

/// The start of a segment: a negative number, and none, count as zero.
pub open spec fn start_of(start: Option<u64>) -> u64 {
    match start {
        Some(bits) => if bits < SIGN {
            bits
        } else {
            0
        },
        None => 0,
    }
}

/// The end of a segment: a number before the start, and none, count as the start.
pub open spec fn end_of(start: u64, end: Option<u64>) -> u64 {
    match end {
        Some(bits) => if start < bits < SIGN {
            bits
        } else {
            start
        },
        None => start,
    }
}

proof fn lemma_spacing(p: nat)
    requires
        p <= u64::MAX,
    ensures
        spacing(p) == if p < 2 * LEAD {
            1nat
        } else if p < 4 * LEAD {
            2
        } else if p < 8 * LEAD {
            4
        } else if p < 16 * LEAD {
            8
        } else if p < 32 * LEAD {
            16
        } else if p < 64 * LEAD {
            32
        } else if p < 128 * LEAD {
            64
        } else if p < 256 * LEAD {
            128
        } else if p < 512 * LEAD {
            256
        } else if p < 1024 * LEAD {
            512
        } else if p < 2048 * LEAD {
            1024
        } else {
            2048
        },
{
    reveal_with_fuel(spacing, 13);
}

fn round_thousandfold(bits: u64) -> (r: u64)
    requires
        bits < SIGN,
    ensures
        r == thousandfold(bits),
{
    let m: u64 = if bits < LEAD {
        bits
    } else {
        LEAD + bits % LEAD
    };
    let p: u64 = 1000 * m;
    proof {
        lemma_spacing(p as nat);
    }
    let mut unit: u64 = 1;
    let mut top: u64 = 0x20_0000_0000_0000;
    while p >= top
        invariant
            unit == 1 && top == 2 * LEAD || unit == 2 && top == 4 * LEAD || unit == 4 && top == 8
                * LEAD || unit == 8 && top == 16 * LEAD || unit == 16 && top == 32 * LEAD || unit
                == 32 && top == 64 * LEAD || unit == 64 && top == 128 * LEAD || unit == 128 && top
                == 256 * LEAD || unit == 256 && top == 512 * LEAD || unit == 512 && top == 1024
                * LEAD || unit == 1024 && top == 2048 * LEAD,
            p < 2048 * LEAD,
            unit > 1 ==> p >= unit * LEAD,
        decreases 2048 - unit,
    {
        unit = 2 * unit;
        top = 2 * top;
    }
    assert(unit == spacing(p as nat));
    let q: u64 = p / unit;
    let r: u64 = p % unit;
    assert(q * unit <= p) by (nonlinear_arith)
        requires
            q == p / unit,
            unit > 0,
    ;
    assert((q + 1) * unit == q * unit + unit) by (nonlinear_arith);
    if 2 * r > unit || (2 * r == unit && q % 2 == 1) {
        (q + 1) * unit
    } else {
        q * unit
    }
}

fn scale_up(n: u64, k: u32) -> (r: u64)
    ensures
        r == if scaled(n as nat, k as int) > u64::MAX {
            u64::MAX
        } else {
            scaled(n as nat, k as int) as u64
        },
{
    let mut v: u64 = n;
    proof {
        power2::lemma2_to64();
    }
    for i in 0..k
        invariant
            v == n * power2::pow2(i as nat),
    {
        proof {
            power2::lemma_pow2_unfold((i + 1) as nat);
            assert(n * power2::pow2((i + 1) as nat) == 2 * (n * power2::pow2(i as nat))) by (nonlinear_arith)
                requires
                    power2::pow2((i + 1) as nat) == 2 * power2::pow2(i as nat),
            ;
        }
        if v > 0x7fff_ffff_ffff_ffff {
            proof {
                if i + 1 < k {
                    power2::lemma_pow2_strictly_increases((i + 1) as nat, k as nat);
                }
                assert(n * power2::pow2(k as nat) >= n * power2::pow2((i + 1) as nat)) by (nonlinear_arith)
                    requires
                        power2::pow2(k as nat) >= power2::pow2((i + 1) as nat),
                ;
            }
            return u64::MAX;
        }
        v = 2 * v;
    }
    v
}

fn scale_down(n: u64, k: u32) -> (r: u64)
    ensures
        r == n as nat / power2::pow2(k as nat),
{
    let mut v: u64 = n;
    proof {
        power2::lemma2_to64();
    }
    for i in 0..k
        invariant
            v == n as nat / power2::pow2(i as nat),
    {
        proof {
            power2::lemma_pow2_unfold((i + 1) as nat);
            power2::lemma_pow2_pos(i as nat);
            div_mod::lemma_div_denominator(
                n as int,
                power2::pow2(i as nat) as int,
                2,
            );
            assert(power2::pow2((i + 1) as nat) == power2::pow2(i as nat) * 2);
        }
        v = v / 2;
    }
    v
}

/// Turns a double of seconds that is not negative into whole milliseconds.
pub fn ms_of_seconds(bits: u64) -> (r: u64)
    requires
        bits < SIGN,
    ensures
        r == seconds_to_ms(bits),
{
    let n: u64 = round_thousandfold(bits);
    let field: u32 = (bits / LEAD) as u32;
    if field >= 1075 {
        scale_up(n, field - 1075)
    } else if field == 0 {
        scale_down(n, 1074)
    } else {
        scale_down(n, 1075 - field)
    }
}

/// The start and the end of a segment in whole milliseconds.
pub fn span_ms(start: Option<u64>, end: Option<u64>) -> (r: (u64, u64))
    ensures
        r.0 == seconds_to_ms(start_of(start)),
        r.1 == seconds_to_ms(end_of(start_of(start), end)),
{
    let s: u64 = match start {
        Some(bits) => if bits < SIGN {
            bits
        } else {
            0
        },
        None => 0,
    };
    let e: u64 = match end {
        Some(bits) => if s < bits && bits < SIGN {
            bits
        } else {
            s
        },
        None => s,
    };
    (ms_of_seconds(s), ms_of_seconds(e))
}

// ---------------------------------------------------------------------------------------------
// Laws
// ---------------------------------------------------------------------------------------------

proof fn lemma_spacing_bounds(p: nat)
    ensures
        spacing(p) >= 1,
        p < 2 * LEAD * spacing(p),
        spacing(p) > 1 ==> p >= LEAD * spacing(p),
    decreases p,
{
    if p >= 2 * LEAD {
        lemma_spacing_bounds(p / 2);
        let s = spacing(p / 2);
        assert(p / 2 < 2 * LEAD * s);
        assert(p < 2 * (2 * LEAD * s));
        assert(2 * (2 * LEAD * s) == 2 * LEAD * (2 * s)) by (nonlinear_arith);
        assert(2 * (LEAD * s) == LEAD * (2 * s)) by (nonlinear_arith);
    }
}

proof fn lemma_spacing_doubles(p: nat, q: nat)
    requires
        p <= q,
    ensures
        spacing(p) == spacing(q) || 2 * spacing(p) <= spacing(q),
    decreases q,
{
    lemma_spacing_bounds(q / 2);
    if p >= 2 * LEAD {
        lemma_spacing_doubles(p / 2, q / 2);
    }
}

proof fn lemma_round_bounds(p: nat, unit: nat)
    requires
        unit > 0,
    ensures
        (p / unit) * unit <= round_half_even(p, unit) <= (p / unit + 1) * unit,
{
    assert((p / unit) * unit <= (p / unit + 1) * unit) by (nonlinear_arith);
}

proof fn lemma_round_in_order(p: nat, q: nat, unit: nat)
    requires
        p <= q,
        unit > 0,
    ensures
        round_half_even(p, unit) <= round_half_even(q, unit),
{
    let a = p / unit;
    let b = q / unit;
    lemma_round_bounds(p, unit);
    lemma_round_bounds(q, unit);
    div_mod::lemma_div_is_ordered(p as int, q as int, unit as int);
    if a < b {
        assert((a + 1) * unit <= b * unit) by (nonlinear_arith)
            requires
                a + 1 <= b,
        ;
    } else {
        div_mod::lemma_fundamental_div_mod(p as int, unit as int);
        div_mod::lemma_fundamental_div_mod(q as int, unit as int);
        assert(a * unit <= (a + 1) * unit) by (nonlinear_arith);
    }
}

proof fn lemma_rounded_in_order(p: nat, q: nat)
    requires
        p <= q,
    ensures
        round_half_even(p, spacing(p)) <= round_half_even(q, spacing(q)),
{
    let u = spacing(p);
    let w = spacing(q);
    lemma_spacing_bounds(p);
    lemma_spacing_bounds(q);
    lemma_spacing_doubles(p, q);
    if u == w {
        lemma_round_in_order(p, q, u);
    } else {
        lemma_round_bounds(p, u);
        lemma_round_bounds(q, w);
        assert(p / u + 1 <= 2 * LEAD) by (nonlinear_arith)
            requires
                p < 2 * LEAD * u,
                u > 0,
        ;
        assert((p / u + 1) * u <= 2 * LEAD * u) by (nonlinear_arith)
            requires
                p / u + 1 <= 2 * LEAD,
        ;
        assert(q / w >= LEAD) by (nonlinear_arith)
            requires
                q >= LEAD * w,
                w > 0,
        ;
        assert((q / w) * w >= LEAD * w) by (nonlinear_arith)
            requires
                q / w >= LEAD,
        ;
        assert(LEAD * w >= 2 * LEAD * u) by (nonlinear_arith)
            requires
                w >= 2 * u,
        ;
    }
}

proof fn lemma_rounded_ends(p: nat)
    ensures
        p <= 2000 * LEAD ==> round_half_even(p, spacing(p)) <= 2000 * LEAD,
        p >= 1000 * LEAD ==> round_half_even(p, spacing(p)) >= 1000 * LEAD,
{
    let low: nat = 1000 * LEAD as nat;
    let high: nat = 2000 * LEAD as nat;
    lemma_spacing(low);
    lemma_spacing(high);
    assert(round_half_even(low, spacing(low)) == low);
    assert(round_half_even(high, spacing(high)) == high);
    if p <= high {
        lemma_rounded_in_order(p, high);
    }
    if p >= low {
        lemma_rounded_in_order(low, p);
    }
}

proof fn lemma_scaled_in_order(n: nat, k: int, m: nat, j: int)
    requires
        k <= j,
        n <= m * power2::pow2((j - k) as nat),
    ensures
        scaled(n, k) <= scaled(m, j),
{
    let step = power2::pow2((j - k) as nat);
    if k >= 0 {
        power2::lemma_pow2_adds((j - k) as nat, k as nat);
        let c = power2::pow2(k as nat);
        assert(n * c <= m * (step * c)) by (nonlinear_arith)
            requires
                n <= m * step,
        ;
    } else {
        let d = power2::pow2((-k) as nat);
        power2::lemma_pow2_pos((-k) as nat);
        power2::lemma_pow2_pos((j - k) as nat);
        if j >= 0 {
            let c = power2::pow2(j as nat);
            power2::lemma_pow2_adds(j as nat, (-k) as nat);
            assert(m * step == (m * c) * d) by (nonlinear_arith)
                requires
                    step == c * d,
            ;
            div_mod::lemma_div_is_ordered(n as int, ((m * c) * d) as int, d as int);
            div_mod::lemma_div_by_multiple((m * c) as int, d as int);
        } else {
            let c = power2::pow2((-j) as nat);
            power2::lemma_pow2_pos((-j) as nat);
            power2::lemma_pow2_adds((j - k) as nat, (-j) as nat);
            assert(d == step * c);
            div_mod::lemma_div_is_ordered(n as int, (m * step) as int, d as int);
            div_mod::lemma_div_denominator((m * step) as int, step as int, c as int);
            div_mod::lemma_div_by_multiple(m as int, step as int);
        }
    }
}

/// A later time in seconds is not an earlier one in milliseconds.
pub proof fn law_milliseconds_in_order(a: u64, b: u64)
    requires
        a <= b < SIGN,
    ensures
        seconds_to_ms(a) <= seconds_to_ms(b),
{
    let p: nat = 1000 * significand(a);
    let q: nat = 1000 * significand(b);
    let n = thousandfold(a);
    let m = thousandfold(b);
    let k = exponent(a);
    let j = exponent(b);
    if k == j {
        assert(significand(a) <= significand(b));
        lemma_rounded_in_order(p, q);
        power2::lemma2_to64();
        lemma_scaled_in_order(n, k, m, j);
    } else {
        assert(k < j);
        assert(significand(a) <= 2 * LEAD);
        assert(significand(b) >= LEAD);
        lemma_rounded_ends(p);
        lemma_rounded_ends(q);
        power2::lemma_pow2_unfold((j - k) as nat);
        power2::lemma_pow2_pos((j - k - 1) as nat);
        assert(m * power2::pow2((j - k) as nat) >= m * 2) by (nonlinear_arith)
            requires
                power2::pow2((j - k) as nat) >= 2,
        ;
        lemma_scaled_in_order(n, k, m, j);
    }
}

/// No segment ends before it starts.
pub proof fn law_span(start: Option<u64>, end: Option<u64>)
    ensures
        seconds_to_ms(start_of(start)) <= seconds_to_ms(end_of(start_of(start), end)),
{
    law_milliseconds_in_order(start_of(start), end_of(start_of(start), end));
}

// ---------------------------------------------------------------------------------------------
// Laws of doubles
// ---------------------------------------------------------------------------------------------

/// A double that is not negative stands for its significand times a power of two: 52 bits of
/// fraction, with a leading one unless the exponent field is zero.
pub proof fn law_double(bits: u64, field: int, fraction: int)
    requires
        0 <= field < 2048,
        0 <= fraction < 4_503_599_627_370_496,
        bits == field * 4_503_599_627_370_496 + fraction,
    ensures
        field == 0 ==> significand(bits) == fraction && exponent(bits) == -1074,
        field > 0 ==> significand(bits) == 4_503_599_627_370_496 + fraction && exponent(bits)
            == field - 1075,
{
}

/// `r` is the multiple of `unit` nearest to `p`, the even multiple where two are as near.
pub open spec fn is_nearest_multiple(p: int, unit: int, r: int) -> bool {
    &&& r % unit == 0
    &&& -unit <= 2 * (r - p) <= unit
    &&& 2 * (r - p) == unit || 2 * (r - p) == -unit ==> (r / unit) % 2 == 0
}

/// `unit` is a power of two, and the smallest by which `p` has at most 53 binary digits.
pub open spec fn is_unit_at(p: int, e: nat) -> bool {
    &&& p < 9_007_199_254_740_992 * power2::pow2(e)
    &&& e > 0 ==> p >= 4_503_599_627_370_496 * power2::pow2(e)
}

proof fn lemma_spacing_power(p: nat) -> (e: nat)
    ensures
        spacing(p) == power2::pow2(e),
        is_unit_at(p as int, e),
    decreases p,
{
    lemma_spacing_bounds(p);
    if p < 2 * LEAD {
        power2::lemma2_to64();
        0
    } else {
        let e = lemma_spacing_power(p / 2);
        power2::lemma_pow2_unfold((e + 1) as nat);
        power2::lemma_pow2_pos(e);
        (e + 1) as nat
    }
}

/// A thousand times a double is rounded to the nearest double, half way to the even one.
pub proof fn law_thousandfold(bits: u64)
    ensures
        exists|e: nat|
            #[trigger] is_unit_at(1000 * significand(bits) as int, e) && is_nearest_multiple(
                1000 * significand(bits) as int,
                power2::pow2(e) as int,
                thousandfold(bits) as int,
            ),
{
    let p: nat = 1000 * significand(bits);
    let e = lemma_spacing_power(p);
    let unit = power2::pow2(e) as int;
    power2::lemma_pow2_pos(e);
    let q = p as int / unit;
    let r = p as int % unit;
    div_mod::lemma_fundamental_div_mod(p as int, unit);
    assert((q + 1) * unit == q * unit + unit) by (nonlinear_arith);
    assert(unit * q == q * unit) by (nonlinear_arith);
    let t = thousandfold(bits) as int;
    let n = if 2 * r > unit || (2 * r == unit && q % 2 == 1) {
        q + 1
    } else {
        q
    };
    assert(t == n * unit);
    div_mod::lemma_div_by_multiple(n, unit);
    div_mod::lemma_mod_multiples_basic(n, unit);
    assert(is_nearest_multiple(p as int, unit, t));
    assert(is_unit_at(1000 * significand(bits) as int, e));
}

/// The milliseconds are the rounded thousandfold of the double, cut down to an integer, and at most
/// 2 to the power of 64 less one.
pub proof fn law_milliseconds(bits: u64)
    ensures
        exponent(bits) >= 0 ==> ({
            let n = thousandfold(bits) * power2::pow2(exponent(bits) as nat);
            seconds_to_ms(bits) == if n > 18_446_744_073_709_551_615 {
                18_446_744_073_709_551_615
            } else {
                n
            }
        }),
        exponent(bits) < 0 ==> ({
            let one = power2::pow2((-exponent(bits)) as nat);
            let ms = seconds_to_ms(bits);
            &&& ms * one <= thousandfold(bits)
            &&& ms < 18_446_744_073_709_551_615 ==> thousandfold(bits) < (ms + 1) * one
        }),
{
    if exponent(bits) < 0 {
        let n = thousandfold(bits) as int;
        let one = power2::pow2((-exponent(bits)) as nat) as int;
        power2::lemma_pow2_pos((-exponent(bits)) as nat);
        let q = n / one;
        div_mod::lemma_fundamental_div_mod(n, one);
        assert(one * q == q * one) by (nonlinear_arith);
        assert((q + 1) * one == q * one + one) by (nonlinear_arith);
        let ms = seconds_to_ms(bits) as int;
        if q > u64::MAX {
            assert(ms * one <= q * one) by (nonlinear_arith)
                requires
                    ms <= q,
                    one > 0,
            ;
        }
    }
}

/// Whole seconds are a thousand milliseconds each.
pub proof fn law_whole_seconds(bits: u64, n: nat)
    requires
        bits < SIGN,
        0 < n <= 4_503_599_627_370,
        exponent(bits) < 0,
        significand(bits) == n * power2::pow2((-exponent(bits)) as nat),
    ensures
        seconds_to_ms(bits) == 1000 * n,
{
    let k = exponent(bits);
    let one = power2::pow2((-k) as nat);
    power2::lemma_pow2_pos((-k) as nat);
    let s = significand(bits);
    let p: nat = 1000 * s;
    assert(p == (1000 * n) * one) by (nonlinear_arith)
        requires
            p == 1000 * s,
            s == n * one,
    ;
    let e = lemma_spacing_power(p);
    let unit = power2::pow2(e);
    power2::lemma_pow2_pos(e);
    // The rounding unit divides the unit of whole milliseconds.
    if e as int > -k {
        power2::lemma_pow2_strictly_increases((-k) as nat, e);
        assert(p >= 4_503_599_627_370_496 * unit);
        assert(p < 4_503_599_627_370_496 * one) by (nonlinear_arith)
            requires
                p == (1000 * n) * one,
                1000 * n < 4_503_599_627_370_496,
                one > 0,
        ;
        assert(false) by (nonlinear_arith)
            requires
                p >= 4_503_599_627_370_496 * unit,
                p < 4_503_599_627_370_496 * one,
                unit > one,
        ;
    }
    let c = power2::pow2((-k - e) as nat);
    power2::lemma_pow2_adds(e, (-k - e) as nat);
    assert(one == unit * c);
    assert(p == ((1000 * n) * c) * unit) by (nonlinear_arith)
        requires
            p == (1000 * n) * one,
            one == unit * c,
    ;
    div_mod::lemma_div_by_multiple(((1000 * n) * c) as int, unit as int);
    div_mod::lemma_mod_multiples_basic(((1000 * n) * c) as int, unit as int);
    assert(thousandfold(bits) == p);
    div_mod::lemma_div_by_multiple((1000 * n) as int, one as int);
}

/// The start of a segment is the number that is given, where it is not negative, and else zero; its
/// end is the later one of its start and the number that is given for it.
pub proof fn law_ends(start: u64, end: u64)
    ensures
        start_of(None) == 0,
        start < 0x8000_0000_0000_0000 ==> start_of(Some(start)) == start,
        start >= 0x8000_0000_0000_0000 ==> start_of(Some(start)) == 0,
        end_of(start, None) == start,
        start <= end && end < 0x8000_0000_0000_0000 ==> end_of(start, Some(end)) == end,
        end < start || end >= 0x8000_0000_0000_0000 ==> end_of(start, Some(end)) == start,
{
}

} // verus!
