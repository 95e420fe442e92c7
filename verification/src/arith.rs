//! Elementary number theory on machine integers: primality by trial
//! division, prime factors and the extended Euclidean algorithm.

use vstd::arithmetic::div_mod::*;
use vstd::prelude::*;

verus! {

/// `n` is a prime number.
pub open spec fn spec_is_prime(n: int) -> bool {
    n >= 2 && forall|d: int| 2 <= d < n ==> #[trigger] ((n as int) % d) != 0
}

/// The trial-division criterion: no `d` with `2 <= d` and `d * d <= n` divides `n`.
pub open spec fn trial_division_passes(n: int) -> bool {
    forall|d: int| 2 <= d && #[trigger] (d * d) <= n ==> (n as int) % d != 0
}

/// Absolute value.
pub open spec fn abs_int(x: int) -> int {
    if x < 0 {
        -x
    } else {
        x
    }
}

/// `g` divides exactly the common divisors of `a` and `b`: it is their greatest common divisor.
pub open spec fn is_gcd(g: int, a: int, b: int) -> bool {
    forall|d: int| d > 0 ==> ((#[trigger] ((g as int) % d) == 0) <==> ((a as int) % d == 0 && (b as int) % d == 0))
}

/// For `n >= 2`, trial division up to the square root decides primality.
pub proof fn lemma_trial_division(n: int)
    requires
        n >= 2,
    ensures
        trial_division_passes(n) <==> spec_is_prime(n),
{
    if trial_division_passes(n) {
        assert forall|d: int| 2 <= d < n implies #[trigger] ((n as int) % d) != 0 by {
            if (n as int) % d == 0 {
                if d * d <= n {
                    assert((n as int) % d != 0);
                } else {
                    let e = n / d;
                    lemma_fundamental_div_mod(n, d);
                    assert(n == d * e);
                    assert(e >= 2) by (nonlinear_arith)
                        requires
                            n == d * e,
                            2 <= d < n,
                    ;
                    assert(d > e) by (nonlinear_arith)
                        requires
                            n == d * e,
                            d * d > n,
                            e >= 2,
                            d >= 2,
                    ;
                    assert(e * e <= n) by (nonlinear_arith)
                        requires
                            n == d * e,
                            d > e,
                            e >= 2,
                    ;
                    assert(n % e == 0) by {
                        lemma_mod_multiples_basic(d, e);
                        assert(d * e == e * d) by (nonlinear_arith);
                    }
                    assert(n % e != 0);
                }
            }
        }
    }
    if spec_is_prime(n) {
        assert forall|d: int| 2 <= d && #[trigger] (d * d) <= n implies (n as int) % d != 0 by {
            if d >= n {
                assert(d * d > n) by (nonlinear_arith)
                    requires
                        d >= n,
                        n >= 2,
                ;
            }
        }
    }
}

/// Whether `n` is prime, by trial division up to its square root; zero, which no divisor
/// below its square root divides, also passes.
pub fn is_prime(n: u32) -> (res: bool)
    ensures
        res == (n == 0 || spec_is_prime(n as int)),
{
    if n == 1 {
        return false;
    }
    let mut i: u64 = 2;
    let mut sq: u64 = 4;
    while sq <= n as u64
        invariant
            sq == i * i,
            2 <= i <= 65536,
            (i - 1) * (i - 1) <= n || i == 2,
            n != 1,
            forall|d: int| 2 <= d < i && d * d <= n ==> #[trigger] (n as int % d) != 0,
        decreases 65536 - i,
    {
        if n as u64 % i == 0 {
            proof {
                assert(i < n) by (nonlinear_arith)
                    requires
                        i * i <= n,
                        i >= 2,
                ;
                assert((n as int) % (i as int) == 0);
            }
            return false;
        }
        proof {
            assert(i * i <= n);
            assert(i < 65536) by (nonlinear_arith)
                requires
                    i * i <= n,
                    n < 4294967296,
                    i >= 2,
            ;
        }
        proof {
            assert((i + 1) * (i + 1) == i * i + 2 * i + 1) by (nonlinear_arith);
        }
        sq = sq + 2 * i + 1;
        i = i + 1;
    }
    proof {
        assert forall|d: int| 2 <= d && #[trigger] (d * d) <= n implies (n as int) % d != 0 by {
            if d >= i {
                assert(d * d >= i * i) by (nonlinear_arith)
                    requires
                        d >= i,
                        i >= 2,
                ;
            }
        }
        if n >= 2 {
            lemma_trial_division(n as int);
        }
    }
    true
}

/// The distinct prime factors of `n` in increasing order; empty when `n < 2`.
pub fn prime_factorization(n: u32) -> (factors: Vec<u32>)
    ensures
        n < 2 ==> factors.len() == 0,
        forall|i: int| 0 <= i < factors.len() ==> spec_is_prime(#[trigger] factors[i] as int),
        forall|i: int| 0 <= i < factors.len() ==> (n as int) % (#[trigger] factors[i] as int) == 0,
        forall|i: int, j: int| 0 <= i < j < factors.len() ==> factors[i] < factors[j],
        forall|p: int|
            2 <= n && spec_is_prime(p) && (n as int) % p == 0 ==> factors@.contains(p as u32),
{
    let mut factors: Vec<u32> = Vec::new();
    if n < 2 {
        return factors;
    }
    let mut d: u64 = 2;
    while d <= n as u64
        invariant
            2 <= n,
            2 <= d <= n as u64 + 1,
            forall|i: int| 0 <= i < factors.len() ==> spec_is_prime(#[trigger] factors[i] as int),
            forall|i: int|
                0 <= i < factors.len() ==> (n as int) % (#[trigger] factors[i] as int) == 0,
            forall|i: int| 0 <= i < factors.len() ==> 2 <= #[trigger] factors[i] < d,
            forall|i: int, j: int| 0 <= i < j < factors.len() ==> factors[i] < factors[j],
            forall|p: int|
                2 <= p < d && spec_is_prime(p) && (n as int) % p == 0 ==> factors@.contains(
                    p as u32,
                ),
        decreases n as u64 + 1 - d,
    {
        let dd = d as u32;
        let ghost before = factors@;
        if n % dd == 0 {
            let prime = is_prime(dd);
            proof {
                lemma_trial_division(dd as int);
            }
            if prime {
                factors.push(dd);
                proof {
                    assert(factors[factors.len() - 1] == dd);
                }
            }
        }
        proof {
            assert forall|p: int|
                2 <= p < d + 1 && spec_is_prime(p) && (n as int) % p == 0 implies factors@.contains(
                p as u32,
            ) by {
                if p == d {
                    lemma_trial_division(dd as int);
                    assert(factors[factors.len() - 1] == dd);
                } else {
                    assert(before.contains(p as u32));
                    let k = choose|k: int| 0 <= k < before.len() && before[k] == p as u32;
                    assert(factors@[k] == p as u32);
                }
            }
        }
        d = d + 1;
    }
    proof {
        assert forall|p: int|
            2 <= n && spec_is_prime(p) && (n as int) % p == 0 implies factors@.contains(
            p as u32,
        ) by {
            lemma_mod_is_zero(n as nat, p as nat);
        }
    }
    factors
}

proof fn lemma_mod_shift(x: int, y: int, q: int, m: int)
    requires
        m > 0,
        y % m == 0,
    ensures
        (x - q * y) % m == x % m,
{
    lemma_fundamental_div_mod(y, m);
    let k = y / m;
    assert(x - q * y == m * (-q * k) + x) by (nonlinear_arith)
        requires
            y == m * k,
    ;
    lemma_mod_multiples_vanish(-q * k, x, m);
}

/// The extended Euclidean algorithm. Returns `(s, t, g)` with `s * a + t * b == g`,
/// where `g` is the greatest common divisor of `a` and `b`.
pub fn egcd(a: u32, b: u32) -> (res: (i64, i64, i64))
    ensures
        res.0 * a + res.1 * b == res.2,
        res.2 >= 0,
        is_gcd(res.2 as int, a as int, b as int),
        abs_int(res.0 as int) <= b || res.0 == 1,
        abs_int(res.1 as int) <= a || res.1 == 1,
{
    let (mut r0, mut r1): (i64, i64) = (a as i64, b as i64);
    let (mut s0, mut s1): (i64, i64) = (1, 0);
    let (mut t0, mut t1): (i64, i64) = (0, 1);
    while r1 != 0
        invariant
            r0 >= 0,
            r1 >= 0,
            s0 * a + t0 * b == r0,
            s1 * a + t1 * b == r1,
            forall|d: int|
                d > 0 ==> ((#[trigger] ((r0 as int) % d) == 0 && (r1 as int) % d == 0) <==> ((a as int) % d == 0 && (b as int) % d
                    == 0)),
            abs_int(s1 as int) * r0 + abs_int(s0 as int) * r1 == b,
            abs_int(t1 as int) * r0 + abs_int(t0 as int) * r1 == a,
            s0 * s1 <= 0,
            t0 * t1 <= 0,
            abs_int(s0 as int) <= b || (s0 == 1 && r1 == b),
            abs_int(t0 as int) <= a || t0 == 1,
            abs_int(s1 as int) <= b,
            abs_int(t1 as int) <= a || (t1 == 1 && r0 == a),
        decreases r1,
    {
        let q = r0 / r1;
        let r = r0 % r1;
        proof {
            lemma_fundamental_div_mod(r0 as int, r1 as int);
            assert(r0 == r1 * q + r);
            assert(q >= 0) by (nonlinear_arith)
                requires
                    r0 >= 0,
                    r1 > 0,
                    q == r0 / r1,
            ;
            assert(q * r1 <= r0) by (nonlinear_arith)
                requires
                    r0 == r1 * q + r,
                    0 <= r,
            ;
            let as0 = abs_int(s0 as int);
            let as1 = abs_int(s1 as int);
            let at0 = abs_int(t0 as int);
            let at1 = abs_int(t1 as int);
            assert(abs_int(s0 - q * s1) == as0 + q * as1) by (nonlinear_arith)
                requires
                    s0 * s1 <= 0,
                    q >= 0,
                    as0 == abs_int(s0 as int),
                    as1 == abs_int(s1 as int),
            ;
            assert(abs_int(t0 - q * t1) == at0 + q * at1) by (nonlinear_arith)
                requires
                    t0 * t1 <= 0,
                    q >= 0,
                    at0 == abs_int(t0 as int),
                    at1 == abs_int(t1 as int),
            ;
            assert((as0 + q * as1) * r1 + as1 * r == b) by (nonlinear_arith)
                requires
                    as1 * r0 + as0 * r1 == b,
                    r0 == r1 * q + r,
            ;
            assert((at0 + q * at1) * r1 + at1 * r == a) by (nonlinear_arith)
                requires
                    at1 * r0 + at0 * r1 == a,
                    r0 == r1 * q + r,
            ;
            assert(as0 + q * as1 <= b) by (nonlinear_arith)
                requires
                    (as0 + q * as1) * r1 + as1 * r == b,
                    r1 >= 1,
                    as1 >= 0,
                    r >= 0,
            ;
            assert(at0 + q * at1 <= a) by (nonlinear_arith)
                requires
                    (at0 + q * at1) * r1 + at1 * r == a,
                    r1 >= 1,
                    at1 >= 0,
                    r >= 0,
            ;
            assert(q * as1 <= b) by (nonlinear_arith)
                requires
                    as0 + q * as1 <= b,
                    as0 >= 0,
            ;
            assert(q * at1 <= a) by (nonlinear_arith)
                requires
                    at0 + q * at1 <= a,
                    at0 >= 0,
            ;
            assert(-(b as int) <= q * s1 <= b) by (nonlinear_arith)
                requires
                    q * as1 <= b,
                    q >= 0,
                    as1 == abs_int(s1 as int),
            ;
            assert(-(a as int) <= q * t1 <= a) by (nonlinear_arith)
                requires
                    q * at1 <= a,
                    q >= 0,
                    at1 == abs_int(t1 as int),
            ;
            assert(s1 * (s0 - q * s1) <= 0) by (nonlinear_arith)
                requires
                    s0 * s1 <= 0,
                    q >= 0,
            ;
            assert(t1 * (t0 - q * t1) <= 0) by (nonlinear_arith)
                requires
                    t0 * t1 <= 0,
                    q >= 0,
            ;
            assert((s0 - q * s1) * a + (t0 - q * t1) * b == r) by (nonlinear_arith)
                requires
                    s0 * a + t0 * b == r0,
                    s1 * a + t1 * b == r1,
                    r0 == r1 * q + r,
            ;
            lemma_divisors_step(r0 as int, r1 as int, q as int, r as int, a as int, b as int);
        }
        let ns = s0 - q * s1;
        let nt = t0 - q * t1;
        r0 = r1;
        r1 = r;
        s0 = s1;
        s1 = ns;
        t0 = t1;
        t1 = nt;
    }
    proof {
        assert forall|d: int| d > 0 implies ((#[trigger] ((r0 as int) % d) == 0) <==> ((a as int) % d == 0 && (b as int) % d
            == 0)) by {
            assert((r1 as int) % d == 0);
        }
    }
    (s0, t0, r0)
}

/// The greatest common divisor of a prime and a number strictly between zero and it is one.
pub proof fn lemma_gcd_with_prime(a: int, p: int, g: int)
    requires
        spec_is_prime(p),
        0 < a < p,
        g >= 0,
        is_gcd(g, a, p),
    ensures
        g == 1,
{
    if g == 0 {
        assert(g % (a + 1) == 0);
        lemma_small_mod(a as nat, (a + 1) as nat);
    } else {
        lemma_mod_self_0(g);
        assert(g % g == 0);
        assert(a % g == 0 && p % g == 0);
        lemma_mod_is_zero(a as nat, g as nat);
        if g >= 2 {
            assert(p % g != 0);
        }
    }
}


/// Bezout's identity: some integer combination of `a` and `b` is their greatest common divisor.
pub proof fn lemma_bezout(a: int, b: int) -> (st: (int, int))
    requires
        a >= 0,
        b >= 0,
    ensures
        st.0 * a + st.1 * b >= 0,
        is_gcd(st.0 * a + st.1 * b, a, b),
    decreases b,
{
    if b == 0 {
        assert forall|d: int| d > 0 implies ((#[trigger] ((1 * a + 0 * b) % d) == 0) <==> (a % d
            == 0 && b % d == 0)) by {
            assert(1 * a + 0 * b == a);
            assert(0int % d == 0);
        }
        (1, 0)
    } else {
        lemma_fundamental_div_mod(a, b);
        lemma_mod_pos_bound(a, b);
        let q = a / b;
        let r = a % b;
        let (s1, t1) = lemma_bezout(b, r);
        let s = t1;
        let t = s1 - t1 * q;
        assert(s * a + t * b == s1 * b + t1 * r) by (nonlinear_arith)
            requires
                a == b * q + r,
                s == t1,
                t == s1 - t1 * q,
        ;
        assert forall|d: int| d > 0 implies ((#[trigger] ((s * a + t * b) % d) == 0) <==> (a % d
            == 0 && b % d == 0)) by {
            assert(((s1 * b + t1 * r) % d == 0) <==> (b % d == 0 && r % d == 0));
            if b % d == 0 {
                lemma_mod_shift(a, b, q, d);
                assert(r == a - q * b) by (nonlinear_arith)
                    requires
                        a == b * q + r,
                ;
            }
        }
        (s, t)
    }
}

proof fn lemma_divisors_step(r0: int, r1: int, q: int, r: int, a: int, b: int)
    requires
        r0 == r1 * q + r,
        forall|d: int|
            d > 0 ==> ((#[trigger] (r0 % d) == 0 && r1 % d == 0) <==> (a % d == 0 && b % d == 0)),
    ensures
        forall|d: int|
            d > 0 ==> ((#[trigger] (r1 % d) == 0 && r % d == 0) <==> (a % d == 0 && b % d == 0)),
{
    assert forall|d: int| d > 0 implies ((#[trigger] (r1 % d) == 0 && r % d == 0) <==> (a % d == 0
        && b % d == 0)) by {
        let x0 = r0 % d;
        assert((x0 == 0 && r1 % d == 0) <==> (a % d == 0 && b % d == 0));
        if r1 % d == 0 {
            lemma_mod_shift(r0, r1, q, d);
            assert(r == r0 - q * r1) by (nonlinear_arith)
                requires
                    r0 == r1 * q + r,
            ;
        }
    }
}
} // verus!
