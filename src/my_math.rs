use vstd::prelude::*;

verus! {

/// Above this bound the wheel-less trial division stops: larger prime
/// factors stay under the root.
pub const FACTOR_BOUND: u128 = 46341;

/// The greatest common divisor, by Euclid's algorithm.
pub open spec fn gcd(a: nat, b: nat) -> nat
    decreases b,
{
    if b == 0 {
        a
    } else {
        gcd(b, a % b)
    }
}

/// `10^e` over the mathematical integers.
pub open spec fn pow10(e: nat) -> int
    decreases e,
{
    if e == 0 {
        1
    } else {
        10 * pow10((e - 1) as nat)
    }
}

/// `x^2` for a square root, `x^3` for a cube root.
pub open spec fn root_power(x: int, square: bool) -> int {
    if square {
        x * x
    } else {
        x * x * x
    }
}

pub open spec fn abs(x: int) -> int {
    if x < 0 {
        -x
    } else {
        x
    }
}

proof fn lemma_pow10_grows(i: nat, j: nat)
    requires
        i <= j,
    ensures
        1 <= pow10(i) <= pow10(j),
    decreases j,
{
    if j > 0 {
        if i < j {
            lemma_pow10_grows(i, (j - 1) as nat);
        }
        lemma_pow10_grows(0, (j - 1) as nat);
    }
}

/// `10^exponent`, or `None` when it does not fit in an `i128`
/// (a negative exponent counts as zero).
pub fn ten_to_the_power_of(exponent: i128) -> (r: Option<i128>)
    ensures
        exponent > 38 ==> r.is_none(),
        0 <= exponent <= 38 ==> r == Some(pow10(exponent as nat) as i128) && 1 <= pow10(
            exponent as nat,
        ) <= i128::MAX,
        exponent < 0 ==> r == Some(1i128),
{
    if exponent > 38 {
        return None;
    }
    proof {
        reveal_with_fuel(pow10, 39);
        assert(pow10(38) == 100000000000000000000000000000000000000int);
    }
    let mut count: i128 = 1;
    let mut i: i128 = 0;
    while i < exponent
        invariant
            exponent <= 38,
            0 <= i,
            i <= exponent || i == 0,
            pow10(38) == 100000000000000000000000000000000000000int,
            count == pow10(i as nat),
        decreases exponent - i,
    {
        proof {
            lemma_pow10_grows(i as nat, 37);
            lemma_pow10_grows(37, 38);
        }
        count = count * 10;
        i = i + 1;
    }
    proof {
        if exponent >= 0 {
            lemma_pow10_grows(exponent as nat, 38);
        }
    }
    Some(count)
}

/// The greatest common divisor of two naturals.
pub fn gcd_u128(a: u128, b: u128) -> (r: u128)
    ensures
        r == gcd(a as nat, b as nat),
{
    let mut x = a;
    let mut y = b;
    while y != 0
        invariant
            gcd(x as nat, y as nat) == gcd(a as nat, b as nat),
        decreases y,
    {
        let t = x % y;
        x = y;
        y = t;
    }
    x
}

pub proof fn lemma_gcd_divides(a: nat, b: nat)
    ensures
        gcd(a, b) == 0 <==> (a == 0 && b == 0),
        gcd(a, b) > 0 ==> a % gcd(a, b) == 0 && b % gcd(a, b) == 0,
    decreases b,
{
    if b > 0 {
        lemma_gcd_divides(b, a % b);
        let g = gcd(b, a % b);
        if g > 0 {
            assert(a % g == 0) by {
                vstd::arithmetic::div_mod::lemma_fundamental_div_mod(a as int, b as int);
                let q = a / b;
                let bq = b / g;
                let rq = (a % b) / g;
                vstd::arithmetic::div_mod::lemma_fundamental_div_mod(b as int, g as int);
                vstd::arithmetic::div_mod::lemma_fundamental_div_mod((a % b) as int, g as int);
                assert(a == g * (bq * q + rq)) by (nonlinear_arith)
                    requires
                        a == b * q + a % b,
                        b == g * bq,
                        a % b == g * rq,
                ;
                vstd::arithmetic::div_mod::lemma_mod_multiples_basic((bq * q + rq) as int, g as int);
                vstd::arithmetic::mul::lemma_mul_is_commutative(g as int, (bq * q + rq) as int);
            }
        }
    }
}


proof fn lemma_root_power_mul(a: int, b: int, square: bool)
    ensures
        root_power(a * b, square) == root_power(a, square) * root_power(b, square),
{
    if square {
        assert((a * b) * (a * b) == (a * a) * (b * b)) by (nonlinear_arith);
    } else {
        assert((a * b) * (a * b) * (a * b) == (a * a * a) * (b * b * b)) by (nonlinear_arith);
    }
}

proof fn lemma_root_power_grows(a: int, b: int, square: bool)
    requires
        1 <= a <= b,
    ensures
        a <= root_power(a, square) <= root_power(b, square),
{
    assert(a <= a * a <= b * b) by (nonlinear_arith)
        requires
            1 <= a <= b,
    ;
    assert(a * a <= a * a * a <= b * b * b) by (nonlinear_arith)
        requires
            1 <= a <= b,
    ;
}

proof fn lemma_multiple_keeps_divisor(x: int, c: int, k: int)
    requires
        c > 0,
        x % c == 0,
    ensures
        (k * x) % c == 0,
{
    vstd::arithmetic::div_mod::lemma_fundamental_div_mod(x, c);
    assert(k * x == (k * (x / c)) * c) by (nonlinear_arith)
        requires
            x == c * (x / c),
    ;
    vstd::arithmetic::div_mod::lemma_mod_multiples_basic(k * (x / c), c);
}

/// Divides `d^k` out of `m` as long as it divides, multiplying `out` by `d`
/// each time; returns the new `(out, m)`.
pub open spec fn strip(m: nat, out: nat, d: nat, square: bool) -> (nat, nat)
    decreases m,
    via strip_decreases
{
    if d >= 2 && m > 0 && m % (root_power(d as int, square) as nat) == 0 {
        strip(m / (root_power(d as int, square) as nat), out * d, d, square)
    } else {
        (out, m)
    }
}

#[via_fn]
proof fn strip_decreases(m: nat, out: nat, d: nat, square: bool) {
    if d >= 2 && m > 0 && m % (root_power(d as int, square) as nat) == 0 {
        lemma_root_power_grows(2, d as int, square);
        let dk = root_power(d as int, square) as nat;
        assert(dk >= 4) by (nonlinear_arith)
            requires
                dk == root_power(d as int, square),
                root_power(2, square) <= root_power(d as int, square),
                root_power(2, square) >= 4,
        ;
        vstd::arithmetic::div_mod::lemma_div_decreases(m as int, dk as int);
    }
}

/// Trial division by `d, d+1, ...` up to `FACTOR_BOUND`, while `d^k <= m`;
/// returns `(outside, inside)`.
pub open spec fn sieve(m: nat, out: nat, d: nat, square: bool) -> (nat, nat)
    decreases FACTOR_BOUND + 1 - d,
{
    if 2 <= d <= FACTOR_BOUND && root_power(d as int, square) <= m {
        let s = strip(m, out, d, square);
        sieve(s.1, s.0, d + 1, square)
    } else {
        (out, m)
    }
}

/// `(outside, inside)` with `outside^k * inside == base`, as `factorise`
/// computes it.
pub open spec fn factorised(base: int, square: bool) -> (int, int) {
    let s = sieve(abs(base) as nat, 1, 2, square);
    (s.0 as int, if base < 0 {
        -(s.1 as int)
    } else {
        s.1 as int
    })
}

fn power_of(d: u128, sqrt: bool) -> (r: u128)
    requires
        d <= FACTOR_BOUND,
    ensures
        r == root_power(d as int, sqrt),
{
    assert(d * d <= 2147488281) by (nonlinear_arith)
        requires
            d <= 46341,
    ;
    assert(d * d * d <= 99516754429821) by (nonlinear_arith)
        requires
            d <= 46341,
            d * d <= 2147488281,
    ;
    if sqrt {
        d * d
    } else {
        d * d * d
    }
}

/// Splits `base` into `outside^k * inside` (k = 2 for a square root, 3 for a
/// cube root), moving out every factor `d^k` with `d <= FACTOR_BOUND`.
/// `inside` keeps the sign of `base`; larger prime factors stay inside.
pub fn factorise(base: i128, sqrt: bool) -> (r: (i128, i128))
    ensures
        r.0 >= 1,
        root_power(r.0 as int, sqrt) * r.1 == base,
        (r.1 < 0) == (base < 0),
        (r.1 == 0) == (base == 0),
        (r.0 as nat, abs(r.1 as int) as nat) == sieve(abs(base as int) as nat, 1, 2, sqrt),
        (r.0 as int, r.1 as int) == factorised(base as int, sqrt),
        forall|d: int|
            2 <= d <= FACTOR_BOUND && #[trigger] root_power(d, sqrt) <= abs(r.1 as int) ==> abs(
                r.1 as int,
            ) % root_power(d, sqrt) != 0,
{
    let neg = base < 0;
    let mut m: u128 = if neg {
        ((-(base + 1)) as u128) + 1
    } else {
        base as u128
    };
    let ghost mag: int = m as int;
    assert(mag == abs(base as int));
    let mut outside: u128 = 1;
    let mut d: u128 = 2;
    assert(root_power(1, sqrt) == 1);
    while d <= FACTOR_BOUND && power_of(d, sqrt) <= m
        invariant
            sieve(m as nat, outside as nat, d as nat, sqrt) == sieve(mag as nat, 1, 2, sqrt),
            m == 0 ==> outside == 1,
            mag == abs(base as int),
            mag <= 0x8000_0000_0000_0000_0000_0000_0000_0000,
            outside >= 1,
            root_power(outside as int, sqrt) * m == mag,
            mag == 0 <==> m == 0,
            2 <= d <= FACTOR_BOUND + 1,
            forall|q: int|
                2 <= q < d ==> (m as int) % #[trigger] root_power(q, sqrt) != 0,
        decreases FACTOR_BOUND + 1 - d,
    {
        let dk: u128 = power_of(d, sqrt);
        let ghost m_start = m as nat;
        let ghost out_start = outside as nat;
        proof {
            lemma_root_power_grows(2, d as int, sqrt);
        }
        while m % dk == 0
            invariant
                strip(m as nat, outside as nat, d as nat, sqrt) == strip(m_start, out_start, d as nat, sqrt),
                mag <= 0x8000_0000_0000_0000_0000_0000_0000_0000,
                outside >= 1,
                m >= 1,
                dk == root_power(d as int, sqrt),
                dk >= 4,
                2 <= d <= FACTOR_BOUND,
                root_power(outside as int, sqrt) * m == mag,
                forall|q: int|
                    2 <= q < d ==> (m as int) % #[trigger] root_power(q, sqrt) != 0,
            decreases m,
        {
            let ghost m0 = m as int;
            let ghost o0 = outside as int;
            proof {
                vstd::arithmetic::div_mod::lemma_fundamental_div_mod(m0, dk as int);
                lemma_root_power_mul(o0, d as int, sqrt);
                assert(o0 * d >= 1) by (nonlinear_arith)
                    requires
                        o0 >= 1,
                        d >= 2,
                ;
                lemma_root_power_grows(1, o0 * d, sqrt);
                assert((m0 / dk as int) < m0) by (nonlinear_arith)
                    requires
                        m0 == dk * (m0 / dk as int),
                        m0 >= 1,
                        dk >= 4,
                ;
                assert(root_power(o0 * d, sqrt) * (m0 / dk as int) == mag) by (nonlinear_arith)
                    requires
                        root_power(o0 * d, sqrt) == root_power(o0, sqrt) * dk,
                        root_power(o0, sqrt) * m0 == mag,
                        m0 == dk * (m0 / dk as int),
                ;
                assert(m0 / dk as int >= 1) by (nonlinear_arith)
                    requires
                        m0 == dk * (m0 / dk as int),
                        m0 >= 1,
                        dk >= 4,
                ;
                assert(root_power(o0 * d, sqrt) <= mag) by (nonlinear_arith)
                    requires
                        root_power(o0 * d, sqrt) * (m0 / dk as int) == mag,
                        m0 / dk as int >= 1,
                        root_power(o0 * d, sqrt) >= 1,
                ;
                lemma_root_power_grows(o0 * d, o0 * d, sqrt);
                assert(o0 * d <= mag);
                assert forall|q: int| 2 <= q < d implies ((m0 / dk as int) % #[trigger] root_power(
                    q,
                    sqrt,
                )) != 0 by {
                    lemma_root_power_grows(1, q, sqrt);
                    if (m0 / dk as int) % root_power(q, sqrt) == 0 {
                        lemma_multiple_keeps_divisor(m0 / dk as int, root_power(q, sqrt), dk as int);
                    }
                }
            }
            m = m / dk;
            outside = outside * d;
        }
        proof {
            lemma_root_power_grows(1, d as int, sqrt);
        }
        d = d + 1;
    }
    proof {
        assert forall|q: int|
            2 <= q <= FACTOR_BOUND && #[trigger] root_power(q, sqrt) <= m implies (m as int)
                % root_power(q, sqrt) != 0 by {
            if q >= d {
                lemma_root_power_grows(d as int, q, sqrt);
            }
        }
        if m >= 1 {
            lemma_root_power_grows(1, outside as int, sqrt);
            assert(root_power(outside as int, sqrt) <= mag) by (nonlinear_arith)
                requires
                    root_power(outside as int, sqrt) * m == mag,
                    m >= 1,
                    root_power(outside as int, sqrt) >= 1,
            ;
            assert(outside * outside <= root_power(outside as int, sqrt)) by (nonlinear_arith)
                requires
                    outside >= 1,
            ;
            assert(outside <= 0x1_0000_0000_0000_0000) by (nonlinear_arith)
                requires
                    outside * outside <= 0x8000_0000_0000_0000_0000_0000_0000_0000,
                    outside >= 1,
            ;
            assert(m <= mag) by (nonlinear_arith)
                requires
                    root_power(outside as int, sqrt) * m == mag,
                    m >= 1,
                    root_power(outside as int, sqrt) >= 1,
            ;
        }
    }
    let inside: i128 = if neg {
        -(((m - 1) as i128)) - 1
    } else {
        m as i128
    };
    proof {
        let rp = root_power(outside as int, sqrt);
        assert(rp * (inside as int) == base) by (nonlinear_arith)
            requires
                rp * m == mag,
                neg ==> inside == -(m as int) && base == -mag,
                !neg ==> inside == m && base == mag,
        ;
    }
    (outside as i128, inside)
}


/// `b^e` over the mathematical integers.
pub open spec fn power(b: int, e: nat) -> int
    decreases e,
{
    if e == 0 {
        1
    } else {
        b * power(b, (e - 1) as nat)
    }
}

proof fn lemma_power_unit(b: int, e: nat)
    requires
        -1 <= b <= 1,
    ensures
        b == 0 ==> power(b, e) == (if e == 0 {
            1int
        } else {
            0int
        }),
        b == 1 ==> power(b, e) == 1,
        b == -1 ==> power(b, e) == (if e % 2 == 0 {
            1int
        } else {
            -1int
        }),
    decreases e,
{
    if e > 0 {
        lemma_power_unit(b, (e - 1) as nat);
    }
}

proof fn lemma_power_abs_grows(b: int, i: nat, j: nat)
    requires
        abs(b) >= 2,
        i <= j,
    ensures
        1 <= abs(power(b, i)) <= abs(power(b, j)),
    decreases j,
{
    if j > 0 {
        if i < j {
            lemma_power_abs_grows(b, i, (j - 1) as nat);
        }
        lemma_power_abs_grows(b, 0, (j - 1) as nat);
        let p = power(b, (j - 1) as nat);
        assert(abs(b * p) == abs(b) * abs(p)) by (nonlinear_arith);
        assert(abs(b) * abs(p) >= abs(p)) by (nonlinear_arith)
            requires
                abs(b) >= 2,
                abs(p) >= 1,
        ;
    }
}

/// `b^e`, or `Overflow` when it does not fit an `i128`.
pub fn checked_pow(b: i128, e: u128) -> (r: Result<i128, crate::types::MathError>)
    ensures
        r == crate::types::checked(power(b as int, e as nat)),
{
    if b == 0 || b == 1 || b == -1 {
        proof {
            lemma_power_unit(b as int, e as nat);
        }
        if b == 0 {
            return Ok(if e == 0 {
                1
            } else {
                0
            });
        } else if b == 1 {
            return Ok(1);
        } else {
            return Ok(if e % 2 == 0 {
                1
            } else {
                -1
            });
        }
    }
    let mut acc: i128 = 1;
    let mut i: u128 = 0;
    while i < e
        invariant
            abs(b as int) >= 2,
            i <= e,
            acc == power(b as int, i as nat),
        decreases e - i,
    {
        match crate::types::checked_mul(b, acc) {
            Ok(v) => {
                acc = v;
            },
            Err(x) => {
                proof {
                    let step = power(b as int, (i + 1) as nat);
                    assert(step == b * acc);
                    assert(abs(step) >= 0x8000_0000_0000_0000_0000_0000_0000_0000);
                    if e > i + 1 {
                        lemma_power_abs_grows(b as int, (i + 2) as nat, e as nat);
                        let next = power(b as int, (i + 2) as nat);
                        assert(next == b * step);
                        assert(abs(b * step) == abs(b as int) * abs(step)) by (nonlinear_arith);
                        assert(abs(b as int) * abs(step) >= 2 * abs(step)) by (nonlinear_arith)
                            requires
                                abs(b as int) >= 2,
                                abs(step) >= 0,
                        ;
                    }
                }
                return Err(x);
            },
        }
        i = i + 1;
    }
    Ok(acc)
}

} // verus!

verus! {

proof fn lemma_mod_of_multiples(a1: nat, b1: nat, k: nat)
    requires
        b1 > 0,
        k > 0,
    ensures
        (k * a1) % (k * b1) == k * (a1 % b1),
{
    let q = a1 / b1;
    let r = a1 % b1;
    vstd::arithmetic::div_mod::lemma_fundamental_div_mod(a1 as int, b1 as int);
    assert(k * a1 == q * (k * b1) + k * r) by (nonlinear_arith)
        requires
            a1 == b1 * q + r,
    ;
    assert(k * r < k * b1) by (nonlinear_arith)
        requires
            r < b1,
            k > 0,
    ;
    assert(k * b1 > 0) by (nonlinear_arith)
        requires
            b1 > 0,
            k > 0,
    ;
    vstd::arithmetic::div_mod::lemma_fundamental_div_mod_converse(
        (k * a1) as int,
        (k * b1) as int,
        q as int,
        (k * r) as int,
    );
}

/// Dividing both arguments by a common divisor divides their gcd.
proof fn lemma_gcd_scales(a1: nat, b1: nat, k: nat)
    requires
        k > 0,
    ensures
        gcd(k * a1, k * b1) == k * gcd(a1, b1),
    decreases b1,
{
    if b1 == 0 {
        assert(k * b1 == 0) by (nonlinear_arith)
            requires
                b1 == 0,
        ;
    } else {
        assert(k * b1 > 0) by (nonlinear_arith)
            requires
                b1 > 0,
                k > 0,
        ;
        lemma_mod_of_multiples(a1, b1, k);
        lemma_gcd_scales(b1, a1 % b1, k);
    }
}

/// After dividing by their gcd, two naturals (not both zero) are coprime.
pub proof fn lemma_gcd_reduced(a: nat, b: nat)
    requires
        b > 0,
    ensures
        gcd(a, b) > 0,
        gcd(a / gcd(a, b), b / gcd(a, b)) == 1,
{
    lemma_gcd_divides(a, b);
    let g = gcd(a, b);
    let a1 = a / g;
    let b1 = b / g;
    vstd::arithmetic::div_mod::lemma_fundamental_div_mod(a as int, g as int);
    vstd::arithmetic::div_mod::lemma_fundamental_div_mod(b as int, g as int);
    assert(a == g * a1 && b == g * b1);
    lemma_gcd_scales(a1, b1, g);
    assert(g * gcd(a1, b1) == g * 1) by (nonlinear_arith)
        requires
            g * gcd(a1, b1) == g,
    ;
    assert(gcd(a1, b1) == 1) by (nonlinear_arith)
        requires
            g * gcd(a1, b1) == g * 1,
            g > 0,
    ;
}

} // verus!
