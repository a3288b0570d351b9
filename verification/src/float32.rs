//! Exact integer models of the few `f32` computations the pipeline makes,
//! so that their results can be computed and stated without floating point.
use vstd::prelude::*;

verus! {

/// The weight of the last of the 24 significant bits of `n`: 1 below
/// `2^24`, doubling with each further bit.
pub open spec fn f32_unit(n: nat) -> nat
    decreases n,
{
    if n < 0x1000000 {
        1
    } else {
        2 * f32_unit(n / 2)
    }
}

/// `n` rounded to 24 significant bits, ties to even: the `f32` nearest to
/// the integer `n`.
pub open spec fn round_to_f32(n: nat) -> nat {
    let u = f32_unit(n);
    let q = n / u;
    let r = n % u;
    let q2 = if 2 * r > u || (2 * r == u && q % 2 == 1) {
        q + 1
    } else {
        q
    };
    q2 * u
}

pub proof fn lemma_f32_unit_shape(n: nat)
    ensures
        f32_unit(n) >= 1,
        n / f32_unit(n) < 0x1000000,
        n >= 0x1000000 ==> f32_unit(n) <= n,
    decreases n,
{
    if n >= 0x1000000 {
        lemma_f32_unit_shape(n / 2);
        vstd::arithmetic::div_mod::lemma_div_denominator(n as int, 2, f32_unit(n / 2) as int);
        assert(f32_unit(n / 2) * 2 == 2 * f32_unit(n / 2));
    }
}

/// The `f32` nearest to `n` (see [`round_to_f32`]).
pub fn round_to_f32_exec(n: u128) -> (res: u128)
    requires
        n < 0x1_0000_0000_0000_0000_0000_0000,
    ensures
        res == round_to_f32(n as nat),
        res <= 2 * n + 1,
{
    let mut u: u128 = 1;
    let mut m: u128 = n;
    while m >= 0x1000000
        invariant
            u >= 1,
            m == n / u,
            f32_unit(n as nat) == u * f32_unit(m as nat),
            u <= n + 1,
            n < 0x1_0000_0000_0000_0000_0000_0000,
        decreases m,
    {
        proof {
            vstd::arithmetic::div_mod::lemma_div_denominator(n as int, u as int, 2);
            assert(u * 2 <= n) by (nonlinear_arith)
                requires
                    m == n / u,
                    m >= 0x1000000,
                    u >= 1,
            {
                vstd::arithmetic::div_mod::lemma_fundamental_div_mod(n as int, u as int);
                assert(n >= u * m) by (nonlinear_arith)
                    requires
                        n == u * (n / u) + n % u,
                        m == n / u,
                        n % u >= 0,
                ;
                assert(u * m >= u * 2) by (nonlinear_arith)
                    requires
                        m >= 2,
                        u >= 1,
                ;
            }
            assert(u * (2 * f32_unit((m / 2) as nat)) == (u * 2) * f32_unit((m / 2) as nat))
                by (nonlinear_arith);
        }
        m = m / 2;
        u = u * 2;
    }
    proof {
        assert(f32_unit(m as nat) == 1);
        assert(u * f32_unit(m as nat) == u * 1);
        assert(f32_unit(n as nat) == u);
    }
    let q = n / u;
    let r = n % u;
    let q2 = if 2 * r > u || (2 * r == u && q % 2 == 1) {
        q + 1
    } else {
        q
    };
    proof {
        vstd::arithmetic::div_mod::lemma_fundamental_div_mod(n as int, u as int);
        assert(q2 * u <= q * u + u) by (nonlinear_arith)
            requires
                q2 <= q + 1,
        ;
        assert(q * u <= n) by (nonlinear_arith)
            requires
                n == u * q + r,
                r >= 0,
        ;
    }
    q2 * u
}

/// `n / d` rounded to 24 significant bits, ties to even, for a quotient of
/// at least `2^23` (so that the result is an integer): the `f32` nearest to
/// `n / d`, when that is in range.
pub open spec fn round_ratio_to_f32(n: nat, d: nat) -> nat {
    let u = f32_unit(n / d);
    let q = n / (d * u);
    let r = n % (d * u);
    let q2 = if 2 * r > d * u || (2 * r == d * u && q % 2 == 1) {
        q + 1
    } else {
        q
    };
    q2 * u
}

/// `2^k`.
pub open spec fn pow2(k: nat) -> nat
    decreases k,
{
    if k == 0 {
        1
    } else {
        2 * pow2((k - 1) as nat)
    }
}

proof fn lemma_unit_double(a: nat)
    requires
        a >= 0x800000,
    ensures
        f32_unit(2 * a) == 2 * f32_unit(a),
        f32_unit(2 * a + 1) == 2 * f32_unit(a),
{
    assert((2 * a) / 2 == a);
    assert((2 * a + 1) / 2 == a);
}

/// Doubling the numerator doubles the rounded quotient.
pub proof fn lemma_round_ratio_double(n: nat, d: nat)
    requires
        d >= 1,
        n / d >= 0x800000,
    ensures
        round_ratio_to_f32(2 * n, d) == 2 * round_ratio_to_f32(n, d),
{
    let a = n / d;
    let u = f32_unit(a);
    lemma_f32_unit_shape(a);
    vstd::arithmetic::div_mod::lemma_fundamental_div_mod(n as int, d as int);
    let r0 = n % d;
    assert(2 * n == (2 * a) * d + 2 * r0) by (nonlinear_arith)
        requires
            n == d * a + r0,
    ;
    if 2 * r0 < d {
        vstd::arithmetic::div_mod::lemma_fundamental_div_mod_converse(
            (2 * n) as int,
            d as int,
            (2 * a) as int,
            (2 * r0) as int,
        );
    } else {
        assert(2 * n == (2 * a + 1) * d + (2 * r0 - d)) by (nonlinear_arith)
            requires
                2 * n == (2 * a) * d + 2 * r0,
        ;
        vstd::arithmetic::div_mod::lemma_fundamental_div_mod_converse(
            (2 * n) as int,
            d as int,
            (2 * a + 1) as int,
            (2 * r0 - d) as int,
        );
    }
    lemma_unit_double(a);
    assert(f32_unit((2 * n) / d) == 2 * u);
    let du = d * u;
    assert(du >= 1) by (nonlinear_arith)
        requires
            d >= 1,
            u >= 1,
            du == d * u,
    ;
    vstd::arithmetic::div_mod::lemma_fundamental_div_mod(n as int, du as int);
    let q = n / du;
    let r = n % du;
    assert(d * (2 * u) == 2 * du) by (nonlinear_arith)
        requires
            du == d * u,
    ;
    assert(2 * n == q * (2 * du) + 2 * r) by (nonlinear_arith)
        requires
            n == du * q + r,
    ;
    vstd::arithmetic::div_mod::lemma_fundamental_div_mod_converse(
        (2 * n) as int,
        (2 * du) as int,
        q as int,
        (2 * r) as int,
    );
    assert((2 * n) / (d * (2 * u)) == q);
    assert((2 * n) % (d * (2 * u)) == 2 * r);
    let q2 = if 2 * r > du || (2 * r == du && q % 2 == 1) {
        q + 1
    } else {
        q
    };
    assert(round_ratio_to_f32(n, d) == q2 * u);
    assert(round_ratio_to_f32(2 * n, d) == q2 * (2 * u));
    assert(q2 * (2 * u) == 2 * (q2 * u)) by (nonlinear_arith);
}

/// Scaling the numerator by `2^k` scales the rounded quotient by `2^k`.
pub proof fn lemma_round_ratio_scale(n: nat, d: nat, k: nat)
    requires
        d >= 1,
        n / d >= 0x800000,
    ensures
        round_ratio_to_f32(n * pow2(k), d) == round_ratio_to_f32(n, d) * pow2(k),
        (n * pow2(k)) / d >= 0x800000,
    decreases k,
{
    if k == 0 {
        assert(pow2(0) == 1);
        assert(n * 1 == n);
        assert(round_ratio_to_f32(n, d) * 1 == round_ratio_to_f32(n, d));
    } else {
        let k1 = (k - 1) as nat;
        assert(pow2(k) == 2 * pow2(k1));
        lemma_round_ratio_scale(n, d, k1);
        let m = n * pow2(k1);
        lemma_round_ratio_double(m, d);
        assert(n * pow2(k) == 2 * m) by (nonlinear_arith)
            requires
                pow2(k) == 2 * pow2(k1),
                m == n * pow2(k1),
        ;
        assert(round_ratio_to_f32(n, d) * pow2(k) == 2 * (round_ratio_to_f32(n, d) * pow2(k1)))
            by (nonlinear_arith)
            requires
                pow2(k) == 2 * pow2(k1),
        ;
        vstd::arithmetic::div_mod::lemma_div_is_ordered(m as int, (2 * m) as int, d as int);
    }
}

/// The rounded quotient of a quotient of at least `2^23` is at least `2^23`.
pub proof fn lemma_round_ratio_lower(n: nat, d: nat)
    requires
        d >= 1,
        n / d >= 0x800000,
    ensures
        round_ratio_to_f32(n, d) >= 0x800000,
{
    let a = n / d;
    let u = f32_unit(a);
    lemma_f32_unit_shape(a);
    let du = d * u;
    assert(du >= 1) by (nonlinear_arith)
        requires
            d >= 1,
            u >= 1,
            du == d * u,
    ;
    vstd::arithmetic::div_mod::lemma_div_denominator(n as int, d as int, u as int);
    assert(n / du == a / u);
    lemma_unit_bound(a);
    let q = n / du;
    let r = n % du;
    let q2 = if 2 * r > du || (2 * r == du && q % 2 == 1) {
        q + 1
    } else {
        q
    };
    assert(round_ratio_to_f32(n, d) == q2 * u);
    assert(q2 * u >= q * u) by (nonlinear_arith)
        requires
            q2 >= q,
    ;
}

proof fn lemma_unit_bound(a: nat)
    requires
        a >= 0x800000,
    ensures
        (a / f32_unit(a)) * f32_unit(a) >= 0x800000,
    decreases a,
{
    lemma_f32_unit_shape(a);
    if a >= 0x1000000 {
        let h = a / 2;
        lemma_unit_bound(h);
        lemma_f32_unit_shape(h);
        let u = f32_unit(h);
        assert(f32_unit(a) == 2 * u);
        assert(2 * u == u * 2);
        vstd::arithmetic::div_mod::lemma_div_denominator(a as int, 2, u as int);
        assert(a / (2 * u) == h / u);
        assert((h / u) * (2 * u) == 2 * ((h / u) * u)) by (nonlinear_arith);
    } else {
        assert(f32_unit(a) == 1);
        assert(a / 1 == a);
    }
}

/// The `f32` nearest to `n / d` (see [`round_ratio_to_f32`]).
pub fn round_ratio_to_f32_exec(n: u128, d: u128) -> (res: u128)
    requires
        d >= 1,
        n < 0x1_0000_0000_0000_0000_0000_0000,
    ensures
        res == round_ratio_to_f32(n as nat, d as nat),
        res <= 2 * (n / d) + 2,
{
    let a = n / d;
    let mut u: u128 = 1;
    let mut m: u128 = a;
    while m >= 0x1000000
        invariant
            u >= 1,
            m == a / u,
            f32_unit(a as nat) == u * f32_unit(m as nat),
            u == 1 || u <= a,
            a == n / d,
            d >= 1,
            n < 0x1_0000_0000_0000_0000_0000_0000,
        decreases m,
    {
        proof {
            vstd::arithmetic::div_mod::lemma_div_denominator(a as int, u as int, 2);
            assert(u * 2 <= a) by (nonlinear_arith)
                requires
                    m == a / u,
                    m >= 0x1000000,
                    u >= 1,
            {
                vstd::arithmetic::div_mod::lemma_fundamental_div_mod(a as int, u as int);
                assert(a >= u * m) by (nonlinear_arith)
                    requires
                        a == u * (a / u) + a % u,
                        m == a / u,
                        a % u >= 0,
                ;
                assert(u * m >= u * 2) by (nonlinear_arith)
                    requires
                        m >= 2,
                        u >= 1,
                ;
            }
            assert(u * (2 * f32_unit((m / 2) as nat)) == (u * 2) * f32_unit((m / 2) as nat))
                by (nonlinear_arith);
        }
        m = m / 2;
        u = u * 2;
    }
    proof {
        assert(f32_unit(m as nat) == 1);
        assert(u * f32_unit(m as nat) == u * 1);
        assert(f32_unit(a as nat) == u);
        vstd::arithmetic::div_mod::lemma_fundamental_div_mod(n as int, d as int);
        if u != 1 {
            assert(d * u <= d * a) by (nonlinear_arith)
                requires
                    u <= a,
                    d >= 1,
            ;
            assert(d * a <= n) by (nonlinear_arith)
                requires
                    n == d * a + n % d,
                    n % d >= 0,
            ;
        }
        assert(d * u >= 1) by (nonlinear_arith)
            requires
                d >= 1,
                u >= 1,
        ;
    }
    let du = d * u;
    let q = n / du;
    let r = n % du;
    let q2 = if 2 * r > du || (2 * r == du && q % 2 == 1) {
        q + 1
    } else {
        q
    };
    proof {
        vstd::arithmetic::div_mod::lemma_div_denominator(n as int, d as int, u as int);
        assert(q == a / u);
        vstd::arithmetic::div_mod::lemma_fundamental_div_mod(a as int, u as int);
        assert(q * u <= a) by (nonlinear_arith)
            requires
                a == u * q + a % u,
                a % u >= 0,
        ;
        assert(2 * r <= 2 * du);
        assert(q2 * u <= q * u + u) by (nonlinear_arith)
            requires
                q2 <= q + 1,
        ;
    }
    q2 * u
}

/// `2^(a + b) == 2^a * 2^b`.
pub proof fn lemma_pow2_adds(a: nat, b: nat)
    ensures
        pow2(a + b) == pow2(a) * pow2(b),
    decreases a,
{
    if a == 0 {
        assert(pow2(0) == 1);
        assert(a + b == b);
        assert(1 * pow2(b) == pow2(b));
    } else {
        lemma_pow2_adds((a - 1) as nat, b);
        assert(pow2(a) == 2 * pow2((a - 1) as nat));
        assert((a - 1 + b) as nat == (a + b - 1) as nat);
        assert(pow2(a + b) == 2 * pow2((a - 1 + b) as nat));
        assert(2 * (pow2((a - 1) as nat) * pow2(b)) == (2 * pow2((a - 1) as nat)) * pow2(b))
            by (nonlinear_arith);
    }
}

/// `2^a >= 1`.
pub proof fn lemma_pow2_positive(a: nat)
    ensures
        pow2(a) >= 1,
    decreases a,
{
    if a > 0 {
        lemma_pow2_positive((a - 1) as nat);
    }
}

/// `round_to_f32(n) >= 1` for `n >= 1`, and at most `2n + 1`.
pub proof fn lemma_round_to_f32_bounds(n: nat)
    requires
        n >= 1,
    ensures
        1 <= round_to_f32(n) <= 2 * n + 1,
{
    let u = f32_unit(n);
    lemma_f32_unit_shape(n);
    vstd::arithmetic::div_mod::lemma_fundamental_div_mod(n as int, u as int);
    let q = n / u;
    let r = n % u;
    if n < 0x1000000 {
        assert(u == 1);
        assert(n / 1 == n);
        assert(q == n);
    } else {
        assert(u <= n);
        assert(q >= 1) by (nonlinear_arith)
            requires
                n == u * q + r,
                r < u,
                u <= n,
                u >= 1,
        ;
    }
    let q2 = if 2 * r > u || (2 * r == u && q % 2 == 1) {
        q + 1
    } else {
        q
    };
    assert(q2 * u >= 1) by (nonlinear_arith)
        requires
            q2 >= 1,
            u >= 1,
    ;
    assert(q2 * u <= q * u + u) by (nonlinear_arith)
        requires
            q2 <= q + 1,
    ;
    assert(q * u <= n) by (nonlinear_arith)
        requires
            n == u * q + r,
            r >= 0,
    ;
}

/// `n / m` rounded to the nearest integer, ties to even: the integer
/// [`round_ratio_to_f32`] and [`round_to_f32`] scale by the unit.
pub open spec fn rounded_quotient(n: nat, m: nat) -> nat {
    let q = n / m;
    let r = n % m;
    if 2 * r > m || (2 * r == m && q % 2 == 1) {
        q + 1
    } else {
        q
    }
}

proof fn lemma_rounded_quotient_near(n: nat, m: nat)
    requires
        m >= 1,
    ensures
        n / m <= rounded_quotient(n, m) <= n / m + 1,
{
}

/// Rounding to the nearest integer keeps the order of numerators.
proof fn lemma_rounded_quotient_monotone(n1: nat, n2: nat, m: nat)
    requires
        m >= 1,
        n1 <= n2,
    ensures
        rounded_quotient(n1, m) <= rounded_quotient(n2, m),
{
    vstd::arithmetic::div_mod::lemma_div_is_ordered(n1 as int, n2 as int, m as int);
    vstd::arithmetic::div_mod::lemma_fundamental_div_mod(n1 as int, m as int);
    vstd::arithmetic::div_mod::lemma_fundamental_div_mod(n2 as int, m as int);
    let q1 = n1 / m;
    let q2 = n2 / m;
    if q1 == q2 {
        assert(n1 % m <= n2 % m);
    }
}

/// Rounding to the nearest integer reverses the order of denominators.
proof fn lemma_rounded_quotient_antitone(n: nat, m1: nat, m2: nat)
    requires
        1 <= m1 <= m2,
    ensures
        rounded_quotient(n, m2) <= rounded_quotient(n, m1),
{
    vstd::arithmetic::div_mod::lemma_div_is_ordered_by_denominator(n as int, m1 as int, m2 as int);
    vstd::arithmetic::div_mod::lemma_fundamental_div_mod(n as int, m1 as int);
    vstd::arithmetic::div_mod::lemma_fundamental_div_mod(n as int, m2 as int);
    let q1 = n / m1;
    let q2 = n / m2;
    if q1 == q2 {
        let q = q1;
        let r1 = n % m1;
        let r2 = n % m2;
        assert(q * m1 <= q * m2) by (nonlinear_arith)
            requires
                m1 <= m2,
        ;
        assert((2 * q + 1) * m1 <= (2 * q + 1) * m2) by (nonlinear_arith)
            requires
                m1 <= m2,
        ;
        assert(2 * r2 >= m2 ==> 2 * r1 >= m1) by (nonlinear_arith)
            requires
                n == m1 * q + r1,
                n == m2 * q + r2,
                (2 * q + 1) * m1 <= (2 * q + 1) * m2,
        ;
        assert(2 * r2 > m2 ==> 2 * r1 > m1) by (nonlinear_arith)
            requires
                n == m1 * q + r1,
                n == m2 * q + r2,
                (2 * q + 1) * m1 <= (2 * q + 1) * m2,
        ;
    }
}

/// A quotient of at least `2^23` keeps at least `2^23` units.
proof fn lemma_unit_quotient_lower(c: nat)
    requires
        c >= 0x800000,
    ensures
        c / f32_unit(c) >= 0x800000,
    decreases c,
{
    if c >= 0x1000000 {
        lemma_unit_quotient_lower(c / 2);
        lemma_f32_unit_shape(c / 2);
        vstd::arithmetic::div_mod::lemma_div_denominator(c as int, 2, f32_unit(c / 2) as int);
        assert(2 * f32_unit(c / 2) == f32_unit(c));
    } else {
        assert(c / 1 == c);
    }
}

/// The unit grows with the value, by a factor of at least two when it
/// grows, and a value with the larger unit holds at least `2^23` of them.
proof fn lemma_unit_order(a: nat, b: nat)
    requires
        a <= b,
    ensures
        f32_unit(a) <= f32_unit(b),
        f32_unit(a) < f32_unit(b) ==> f32_unit(b) >= 2 * f32_unit(a) && b / f32_unit(b)
            >= 0x800000,
    decreases b,
{
    lemma_f32_unit_shape(a);
    lemma_f32_unit_shape(b);
    if b >= 0x1000000 {
        let h = b / 2;
        lemma_f32_unit_shape(h);
        vstd::arithmetic::div_mod::lemma_div_denominator(b as int, 2, f32_unit(h) as int);
        assert(2 * f32_unit(h) == f32_unit(b));
        if a < 0x1000000 {
            lemma_unit_quotient_lower(h);
        } else {
            lemma_unit_order(a / 2, h);
        }
    }
}

/// [`round_ratio_to_f32`] is the rounded quotient by `d` times the unit,
/// and lies within one unit above `(n / d) / unit` units.
proof fn lemma_round_ratio_parts(n: nat, d: nat)
    requires
        d >= 1,
    ensures
        round_ratio_to_f32(n, d) == rounded_quotient(n, d * f32_unit(n / d)) * f32_unit(n / d),
        d * f32_unit(n / d) >= 1,
        n / (d * f32_unit(n / d)) == (n / d) / f32_unit(n / d),
        (n / d) / f32_unit(n / d) < 0x1000000,
        ((n / d) / f32_unit(n / d)) * f32_unit(n / d) <= round_ratio_to_f32(n, d),
        round_ratio_to_f32(n, d) <= ((n / d) / f32_unit(n / d) + 1) * f32_unit(n / d),
{
    let a = n / d;
    let u = f32_unit(a);
    lemma_f32_unit_shape(a);
    assert(d * u >= 1) by (nonlinear_arith)
        requires
            d >= 1,
            u >= 1,
    ;
    vstd::arithmetic::div_mod::lemma_div_denominator(n as int, d as int, u as int);
    lemma_rounded_quotient_near(n, d * u);
    let q = a / u;
    let k = rounded_quotient(n, d * u);
    assert(q * u <= k * u) by (nonlinear_arith)
        requires
            q <= k,
    ;
    assert(k * u <= (q + 1) * u) by (nonlinear_arith)
        requires
            k <= q + 1,
    ;
}

proof fn lemma_units_apart(q1: nat, u1: nat, q2: nat, u2: nat)
    requires
        q1 < 0x1000000,
        q2 >= 0x800000,
        u2 >= 2 * u1,
    ensures
        (q1 + 1) * u1 <= q2 * u2,
{
    assert((q1 + 1) * u1 <= 0x1000000 * u1) by (nonlinear_arith)
        requires
            q1 < 0x1000000,
    ;
    assert(0x800000 * u2 <= q2 * u2) by (nonlinear_arith)
        requires
            q2 >= 0x800000,
    ;
}

/// The rounded quotient grows with the numerator.
pub proof fn lemma_round_ratio_monotone(n1: nat, n2: nat, d: nat)
    requires
        d >= 1,
        n1 <= n2,
    ensures
        round_ratio_to_f32(n1, d) <= round_ratio_to_f32(n2, d),
{
    vstd::arithmetic::div_mod::lemma_div_is_ordered(n1 as int, n2 as int, d as int);
    let a1 = n1 / d;
    let a2 = n2 / d;
    lemma_unit_order(a1, a2);
    lemma_round_ratio_parts(n1, d);
    lemma_round_ratio_parts(n2, d);
    let u1 = f32_unit(a1);
    let u2 = f32_unit(a2);
    if u1 == u2 {
        lemma_rounded_quotient_monotone(n1, n2, d * u1);
        let k1 = rounded_quotient(n1, d * u1);
        let k2 = rounded_quotient(n2, d * u1);
        assert(k1 * u1 <= k2 * u1) by (nonlinear_arith)
            requires
                k1 <= k2,
        ;
    } else {
        lemma_units_apart(a1 / u1, u1, a2 / u2, u2);
    }
}

/// The rounded quotient falls as the denominator grows.
pub proof fn lemma_round_ratio_antitone(n: nat, d1: nat, d2: nat)
    requires
        1 <= d1 <= d2,
    ensures
        round_ratio_to_f32(n, d2) <= round_ratio_to_f32(n, d1),
{
    vstd::arithmetic::div_mod::lemma_div_is_ordered_by_denominator(n as int, d1 as int, d2 as int);
    let a1 = n / d1;
    let a2 = n / d2;
    lemma_unit_order(a2, a1);
    lemma_round_ratio_parts(n, d1);
    lemma_round_ratio_parts(n, d2);
    let u1 = f32_unit(a1);
    let u2 = f32_unit(a2);
    if u1 == u2 {
        assert(d1 * u1 <= d2 * u1) by (nonlinear_arith)
            requires
                d1 <= d2,
        ;
        lemma_rounded_quotient_antitone(n, d1 * u1, d2 * u1);
        let k1 = rounded_quotient(n, d1 * u1);
        let k2 = rounded_quotient(n, d2 * u1);
        assert(k2 * u1 <= k1 * u1) by (nonlinear_arith)
            requires
                k2 <= k1,
        ;
    } else {
        lemma_units_apart(a2 / u2, u2, a1 / u1, u1);
    }
}

/// Rounding an integer to the nearest `f32` keeps the order.
pub proof fn lemma_round_to_f32_monotone(n1: nat, n2: nat)
    requires
        n1 <= n2,
    ensures
        round_to_f32(n1) <= round_to_f32(n2),
{
    lemma_round_to_f32_as_ratio(n1);
    lemma_round_to_f32_as_ratio(n2);
    lemma_round_ratio_monotone(n1, n2, 1);
}

proof fn lemma_round_to_f32_as_ratio(n: nat)
    ensures
        round_to_f32(n) == round_ratio_to_f32(n, 1),
{
    assert(n / 1 == n);
    let u = f32_unit(n);
    assert(1 * u == u);
}

/// The rounded quotient of 0 is 0.
pub proof fn lemma_round_ratio_zero(d: nat)
    requires
        d >= 1,
    ensures
        round_ratio_to_f32(0, d) == 0,
{
    vstd::arithmetic::div_mod::lemma_fundamental_div_mod_converse(0, d as int, 0, 0);
    assert(f32_unit(0) == 1);
    assert(d * 1 == d);
}

} // verus!
