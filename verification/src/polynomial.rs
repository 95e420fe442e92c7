//! Polynomials whose coefficients lie in `Z_p`, the building block of finite fields.
//! A polynomial is kept dense: the coefficient of `x^k` is at index `k`, every
//! coefficient is reduced below `p`, and there are no trailing zero coefficients.

use vstd::arithmetic::div_mod::*;
use vstd::arithmetic::power::*;
use vstd::prelude::*;

use crate::arith::{egcd, lemma_bezout, lemma_gcd_with_prime, prime_factorization, spec_is_prime};

verus! {

// ---------------------------------------------------------------------------
// The mathematical model: coefficient sequences over the integers.
// ---------------------------------------------------------------------------
/// Coefficient of `x^k` in the coefficient sequence `a` (zero outside it).
pub open spec fn pc(a: Seq<int>, k: int) -> int {
    if 0 <= k < a.len() {
        a[k]
    } else {
        0
    }
}

/// The sequence has no trailing zero coefficient.
pub open spec fn is_trimmed(a: Seq<int>) -> bool {
    a.len() == 0 || a.last() != 0
}

/// Every coefficient lies in `0..p`.
pub open spec fn reduced(a: Seq<int>, p: int) -> bool {
    forall|i: int| 0 <= i < a.len() ==> 0 <= #[trigger] a[i] < p
}

/// A canonical representation of a polynomial over `Z_p`.
pub open spec fn canonical(a: Seq<int>, p: int) -> bool {
    is_trimmed(a) && reduced(a, p)
}

/// Drop trailing zero coefficients.
pub open spec fn trim(a: Seq<int>) -> Seq<int>
    decreases a.len(),
{
    if a.len() > 0 && a.last() == 0 {
        trim(a.drop_last())
    } else {
        a
    }
}

/// The canonical sequence whose coefficient of `x^k` is `f(k)` for `k < n` and zero beyond.
pub open spec fn from_fn(n: nat, f: spec_fn(int) -> int) -> Seq<int> {
    trim(Seq::new(n, f))
}

pub open spec fn max_len(a: Seq<int>, b: Seq<int>) -> nat {
    if a.len() >= b.len() {
        a.len()
    } else {
        b.len()
    }
}

/// Sum over `Z_p`.
pub open spec fn padd(a: Seq<int>, b: Seq<int>, p: int) -> Seq<int> {
    from_fn(max_len(a, b), |k: int| (pc(a, k) + pc(b, k)) % p)
}

/// Difference over `Z_p`.
pub open spec fn psub(a: Seq<int>, b: Seq<int>, p: int) -> Seq<int> {
    from_fn(max_len(a, b), |k: int| (pc(a, k) - pc(b, k)) % p)
}

/// `sum_{i < n} a_i * b_{k - i}`: the first `n` terms of the coefficient of `x^k` in `a * b`.
pub open spec fn conv(a: Seq<int>, b: Seq<int>, k: int, n: int) -> int
    decreases n,
{
    if n <= 0 {
        0
    } else {
        conv(a, b, k, n - 1) + pc(a, n - 1) * pc(b, k - (n - 1))
    }
}

/// Coefficient of `x^k` in the integer product `a * b`.
pub open spec fn prod_coeff(a: Seq<int>, b: Seq<int>, k: int) -> int {
    conv(a, b, k, a.len() as int)
}

/// Product over `Z_p`.
pub open spec fn pmul(a: Seq<int>, b: Seq<int>, p: int) -> Seq<int> {
    if a.len() == 0 || b.len() == 0 {
        Seq::empty()
    } else {
        from_fn((a.len() + b.len() - 1) as nat, |k: int| prod_coeff(a, b, k) % p)
    }
}

/// The monomial `c * x^d`.
pub open spec fn monomial(d: nat, c: int) -> Seq<int> {
    Seq::new(d + 1, |k: int| if k == d { c } else { 0 })
}

/// Multiply every coefficient by `c` over `Z_p`.
pub open spec fn pscale(a: Seq<int>, c: int, p: int) -> Seq<int> {
    from_fn(a.len(), |k: int| (c * pc(a, k)) % p)
}

proof fn lemma_trim(a: Seq<int>)
    ensures
        is_trimmed(trim(a)),
        trim(a).len() <= a.len(),
        forall|k: int| #[trigger] pc(trim(a), k) == pc(a, k),
        forall|k: int| 0 <= k < trim(a).len() ==> trim(a)[k] == a[k],
    decreases a.len(),
{
    if a.len() > 0 && a.last() == 0 {
        lemma_trim(a.drop_last());
        assert forall|k: int| #[trigger] pc(a.drop_last(), k) == pc(a, k) by {}
        assert forall|k: int| 0 <= k < trim(a).len() implies trim(a)[k] == a[k] by {
            assert(trim(a)[k] == a.drop_last()[k]);
        }
    }
}

/// Two trimmed sequences with the same coefficients are equal.
pub proof fn lemma_pc_ext(a: Seq<int>, b: Seq<int>)
    requires
        is_trimmed(a),
        is_trimmed(b),
        forall|k: int| #[trigger] pc(a, k) == pc(b, k),
    ensures
        a == b,
{
    if a.len() < b.len() {
        assert(pc(b, b.len() - 1) == pc(a, b.len() - 1));
    } else if b.len() < a.len() {
        assert(pc(a, a.len() - 1) == pc(b, a.len() - 1));
    } else {
        assert forall|k: int| 0 <= k < a.len() implies a[k] == b[k] by {
            assert(pc(a, k) == pc(b, k));
        }
        assert(a =~= b);
    }
}

/// The defining property of `from_fn`.
pub proof fn lemma_from_fn(n: nat, f: spec_fn(int) -> int)
    ensures
        is_trimmed(from_fn(n, f)),
        from_fn(n, f).len() <= n,
        forall|k: int| #[trigger] pc(from_fn(n, f), k) == if 0 <= k < n { f(k) } else { 0 },
{
    lemma_trim(Seq::new(n, f));
}

// ---------------------------------------------------------------------------
// The executable representation.
// ---------------------------------------------------------------------------
/// A polynomial with coefficients in `Z_p`, where `p` is `base_prime`.
/// The coefficient of `x^k` is `coeffs[k]`; all are below `base_prime` and
/// the last one is nonzero.
#[derive(Debug, PartialEq, Eq)]
pub struct Polynomial {
    /// The prime `p`.
    base_prime: u32,
    /// The coefficients, lowest power first.
    coeffs: Vec<u32>,
}

/// Reduce a dense coefficient vector to its canonical form by dropping trailing zeros.
fn trim_vec(v: &mut Vec<u32>)
    ensures
        final(v)@.len() <= old(v)@.len(),
        is_trimmed(final(v)@.map_values(|c: u32| c as int)),
        forall|k: int| 0 <= k < final(v)@.len() ==> final(v)@[k] == old(v)@[k],
        forall|k: int| final(v)@.len() <= k < old(v)@.len() ==> old(v)@[k] == 0,
{
    while v.len() > 0 && v[v.len() - 1] == 0
        invariant
            v@.len() <= old(v)@.len(),
            forall|k: int| 0 <= k < v@.len() ==> v@[k] == old(v)@[k],
            forall|k: int| v@.len() <= k < old(v)@.len() ==> old(v)@[k] == 0,
        decreases v.len(),
    {
        v.pop();
    }
}

impl Polynomial {
    /// The prime `p` as an integer.
    pub closed spec fn p(&self) -> int {
        self.base_prime as int
    }

    /// The coefficient sequence.
    pub closed spec fn s(&self) -> Seq<int> {
        self.coeffs@.map_values(|c: u32| c as int)
    }

    /// Well-formedness: a canonical coefficient sequence over `Z_p` with `p > 0`.
    pub open spec fn wf(&self) -> bool {
        &&& self.p() > 0
        &&& self.p() <= u32::MAX
        &&& canonical(self.s(), self.p())
        &&& self.s().len() < u32::MAX
    }

    #[verifier::type_invariant]
    pub(crate) open spec fn inv(self) -> bool {
        self.wf()
    }

    proof fn lemma_s(&self)
        ensures
            self.s().len() == self.coeffs@.len(),
            forall|k: int| 0 <= k < self.coeffs@.len() ==> #[trigger] self.s()[k] == self.coeffs@[k] as int,
    {
    }

    fn from_vec(base_prime: u32, coeffs: Vec<u32>) -> (r: Self)
        requires
            base_prime > 0,
            coeffs.len() < u32::MAX,
            forall|i: int| 0 <= i < coeffs.len() ==> coeffs[i] < base_prime,
        ensures
            r.wf(),
            r.base_prime == base_prime,
            forall|k: int| #[trigger] pc(r.s(), k) == pc(coeffs@.map_values(|c: u32| c as int), k),
    {
        let ghost before = coeffs@.map_values(|c: u32| c as int);
        let mut coeffs = coeffs;
        trim_vec(&mut coeffs);
        let r = Polynomial { base_prime, coeffs };
        proof {
            assert forall|k: int| #[trigger] pc(r.s(), k) == pc(before, k) by {
            }
        }
        r
    }

    /// The base prime `p`.
    pub fn base_prime(&self) -> (r: u32)
        ensures
            r as int == self.p(),
    {
        self.base_prime
    }

    /// The coefficient of `x^k`.
    pub fn coeff(&self, k: usize) -> (r: u32)
        ensures
            r as int == pc(self.s(), k as int),
    {
        proof {
            use_type_invariant(self);
        }
        if k < self.coeffs.len() {
            self.coeffs[k]
        } else {
            0
        }
    }

    /// The zero polynomial over `Z_p`.
    pub fn zero(base_prime: u32) -> (r: Self)
        requires
            base_prime > 0,
        ensures
            r.wf(),
            r.p() == base_prime as int,
            r.s() == Seq::<int>::empty(),
    {
        let r = Polynomial { base_prime, coeffs: Vec::new() };
        assert(r.s() =~= Seq::<int>::empty());
        r
    }

    /// Whether every coefficient is zero.
    pub fn is_zero(&self) -> (r: bool)
        ensures
            r == (forall|k: int| #[trigger] pc(self.s(), k) == 0),
            r == (self.s().len() == 0),
    {
        proof {
            use_type_invariant(self);
        }
        proof {
            if self.s().len() > 0 {
                assert(pc(self.s(), self.s().len() - 1) != 0);
            }
        }
        self.coeffs.len() == 0
    }

    /// Whether the polynomial is the constant one.
    pub fn is_one(&self) -> (r: bool)
        ensures
            r == (self.s() == seq![1int]),
    {
        proof {
            use_type_invariant(self);
        }
        let r = self.coeffs.len() == 1 && self.coeffs[0] == 1;
        proof {
            if r {
                assert(self.s() =~= seq![1int]);
            }
        }
        r
    }

    /// The leading term `(degree, coefficient)`, or `(0, 0)` for the zero polynomial.
    pub fn lead_term(&self) -> (r: (u32, u32))
        ensures
            self.s().len() == 0 ==> r == (0u32, 0u32),
            self.s().len() > 0 ==> r.0 == self.s().len() - 1 && r.1 == self.s().last(),
    {
        proof {
            use_type_invariant(self);
        }
        let n = self.coeffs.len();
        if n == 0 {
            (0, 0)
        } else {
            ((n - 1) as u32, self.coeffs[n - 1])
        }
    }

    /// The degree; the zero polynomial has degree zero.
    pub fn degree(&self) -> (r: u32)
        ensures
            r == (if self.s().len() == 0 { 0 } else { self.s().len() - 1 }),
    {
        proof {
            use_type_invariant(self);
        }
        self.lead_term().0
    }
}


// ---------------------------------------------------------------------------
// Coefficient characterisations of the spec operations.
// ---------------------------------------------------------------------------
pub proof fn lemma_padd(a: Seq<int>, b: Seq<int>, p: int)
    requires
        p > 0,
    ensures
        is_trimmed(padd(a, b, p)),
        reduced(padd(a, b, p), p),
        padd(a, b, p).len() <= max_len(a, b),
        forall|k: int| #[trigger] pc(padd(a, b, p), k) == (pc(a, k) + pc(b, k)) % p,
{
    let f = |k: int| (pc(a, k) + pc(b, k)) % p;
    lemma_from_fn(max_len(a, b), f);
    lemma_trim(Seq::new(max_len(a, b), f));
    assert forall|k: int| #[trigger] pc(padd(a, b, p), k) == (pc(a, k) + pc(b, k)) % p by {
        if !(0 <= k < max_len(a, b)) {
            assert(pc(a, k) == 0 && pc(b, k) == 0);
            assert(0int % p == 0);
        }
    }
    assert forall|i: int| 0 <= i < padd(a, b, p).len() implies 0 <= #[trigger] padd(
        a,
        b,
        p,
    )[i] < p by {
        assert(pc(padd(a, b, p), i) == padd(a, b, p)[i]);
        lemma_mod_bound(pc(a, i) + pc(b, i), p);
    }
}

pub proof fn lemma_psub(a: Seq<int>, b: Seq<int>, p: int)
    requires
        p > 0,
    ensures
        is_trimmed(psub(a, b, p)),
        reduced(psub(a, b, p), p),
        forall|k: int| #[trigger] pc(psub(a, b, p), k) == (pc(a, k) - pc(b, k)) % p,
{
    let f = |k: int| (pc(a, k) - pc(b, k)) % p;
    lemma_from_fn(max_len(a, b), f);
    assert forall|k: int| #[trigger] pc(psub(a, b, p), k) == (pc(a, k) - pc(b, k)) % p by {
        if !(0 <= k < max_len(a, b)) {
            assert(pc(a, k) == 0 && pc(b, k) == 0);
            assert(0int % p == 0);
        }
    }
    assert forall|i: int| 0 <= i < psub(a, b, p).len() implies 0 <= #[trigger] psub(
        a,
        b,
        p,
    )[i] < p by {
        assert(pc(psub(a, b, p), i) == psub(a, b, p)[i]);
        lemma_mod_bound(pc(a, i) - pc(b, i), p);
    }
}

pub proof fn lemma_pscale(a: Seq<int>, c: int, p: int)
    requires
        p > 0,
    ensures
        is_trimmed(pscale(a, c, p)),
        reduced(pscale(a, c, p), p),
        pscale(a, c, p).len() <= a.len(),
        forall|k: int| #[trigger] pc(pscale(a, c, p), k) == (c * pc(a, k)) % p,
{
    let f = |k: int| (c * pc(a, k)) % p;
    lemma_from_fn(a.len(), f);
    assert forall|k: int| #[trigger] pc(pscale(a, c, p), k) == (c * pc(a, k)) % p by {
        if !(0 <= k < a.len()) {
            assert(pc(a, k) == 0);
            assert(c * 0 == 0);
            assert(0int % p == 0);
        }
    }
    assert forall|i: int| 0 <= i < pscale(a, c, p).len() implies 0 <= #[trigger] pscale(
        a,
        c,
        p,
    )[i] < p by {
        assert(pc(pscale(a, c, p), i) == pscale(a, c, p)[i]);
        lemma_mod_bound(c * pc(a, i), p);
    }
}

/// The partial sums of a product coefficient vanish beyond the degrees of the factors.
pub proof fn lemma_conv_vanishes(a: Seq<int>, b: Seq<int>, k: int, n: int)
    requires
        k < 0 || k >= a.len() + b.len() - 1 || b.len() == 0,
        n <= a.len(),
    ensures
        conv(a, b, k, n) == 0,
    decreases n,
{
    if n > 0 {
        lemma_conv_vanishes(a, b, k, n - 1);
        assert(pc(b, k - (n - 1)) == 0);
        assert(pc(a, n - 1) * 0 == 0);
    }
}

pub proof fn lemma_pmul(a: Seq<int>, b: Seq<int>, p: int)
    requires
        p > 0,
    ensures
        is_trimmed(pmul(a, b, p)),
        reduced(pmul(a, b, p), p),
        pmul(a, b, p).len() <= a.len() + b.len(),
        forall|k: int| #[trigger] pc(pmul(a, b, p), k) == prod_coeff(a, b, k) % p,
{
    if a.len() == 0 || b.len() == 0 {
        assert forall|k: int| #[trigger] pc(pmul(a, b, p), k) == prod_coeff(a, b, k) % p by {
            if a.len() == 0 {
                assert(prod_coeff(a, b, k) == 0);
            } else {
                lemma_conv_vanishes(a, b, k, a.len() as int);
            }
            assert(0int % p == 0);
        }
    } else {
        let n = (a.len() + b.len() - 1) as nat;
        let f = |k: int| prod_coeff(a, b, k) % p;
        lemma_from_fn(n, f);
        assert forall|k: int| #[trigger] pc(pmul(a, b, p), k) == prod_coeff(a, b, k) % p by {
            if !(0 <= k < n) {
                lemma_conv_vanishes(a, b, k, a.len() as int);
                assert(0int % p == 0);
            }
        }
        assert forall|i: int| 0 <= i < pmul(a, b, p).len() implies 0 <= #[trigger] pmul(
            a,
            b,
            p,
        )[i] < p by {
            assert(pc(pmul(a, b, p), i) == pmul(a, b, p)[i]);
            lemma_mod_bound(prod_coeff(a, b, i), p);
        }
    }
}

// ---------------------------------------------------------------------------
// Executable arithmetic.
// ---------------------------------------------------------------------------
fn add_impl(a: &Polynomial, b: &Polynomial) -> (r: Polynomial)
    requires
        a.wf(),
        b.wf(),
        a.base_prime == b.base_prime,
    ensures
        r.wf(),
        r.base_prime == a.base_prime,
        r.s() == padd(a.s(), b.s(), a.p()),
{
    let p = a.base_prime;
    let n = if a.coeffs.len() >= b.coeffs.len() {
        a.coeffs.len()
    } else {
        b.coeffs.len()
    };
    let mut v: Vec<u32> = Vec::new();
    for k in 0..n
        invariant
            a.wf(),
            b.wf(),
            p == a.base_prime,
            p == b.base_prime,
            n == max_len(a.s(), b.s()),
            v.len() == k,
            forall|i: int|
                0 <= i < k ==> #[trigger] v@[i] as int == (pc(a.s(), i) + pc(b.s(), i)) % (p as int),
    {
        let x = a.coeff(k) as u64 + b.coeff(k) as u64;
        let y = (x % (p as u64)) as u32;
        v.push(y);
    }
    let r = Polynomial::from_vec(p, v);
    proof {
        lemma_padd(a.s(), b.s(), a.p());
        assert forall|k: int| #[trigger] pc(r.s(), k) == pc(padd(a.s(), b.s(), a.p()), k) by {
            assert(pc(r.s(), k) == pc(v@.map_values(|c: u32| c as int), k));
            if !(0 <= k < n) {
                assert(pc(a.s(), k) == 0 && pc(b.s(), k) == 0);
                assert(0int % (p as int) == 0);
            }
        }
        lemma_pc_ext(r.s(), padd(a.s(), b.s(), a.p()));
    }
    r
}

fn sub_impl(a: &Polynomial, b: &Polynomial) -> (r: Polynomial)
    requires
        a.wf(),
        b.wf(),
        a.base_prime == b.base_prime,
    ensures
        r.wf(),
        r.base_prime == a.base_prime,
        r.s() == psub(a.s(), b.s(), a.p()),
{
    let p = a.base_prime;
    let n = if a.coeffs.len() >= b.coeffs.len() {
        a.coeffs.len()
    } else {
        b.coeffs.len()
    };
    let mut v: Vec<u32> = Vec::new();
    for k in 0..n
        invariant
            a.wf(),
            b.wf(),
            p == a.base_prime,
            p == b.base_prime,
            n == max_len(a.s(), b.s()),
            v.len() == k,
            forall|i: int|
                0 <= i < k ==> #[trigger] v@[i] as int == (pc(a.s(), i) - pc(b.s(), i)) % (p as int),
    {
        let ak = a.coeff(k) as u64;
        let bk = b.coeff(k) as u64;
        let x = p as u64 + ak - bk;
        let y = (x % (p as u64)) as u32;
        proof {
            lemma_mod_add_multiples_vanish(ak - bk, p as int);
        }
        v.push(y);
    }
    let r = Polynomial::from_vec(p, v);
    proof {
        lemma_psub(a.s(), b.s(), a.p());
        assert forall|k: int| #[trigger] pc(r.s(), k) == pc(psub(a.s(), b.s(), a.p()), k) by {
            assert(pc(r.s(), k) == pc(v@.map_values(|c: u32| c as int), k));
            if !(0 <= k < n) {
                assert(pc(a.s(), k) == 0 && pc(b.s(), k) == 0);
                assert(0int % (p as int) == 0);
            }
        }
        lemma_pc_ext(r.s(), psub(a.s(), b.s(), a.p()));
    }
    r
}

fn mul_impl(a: &Polynomial, b: &Polynomial) -> (r: Polynomial)
    requires
        a.wf(),
        b.wf(),
        a.base_prime == b.base_prime,
        a.coeffs.len() + b.coeffs.len() <= u32::MAX,
    ensures
        r.wf(),
        r.base_prime == a.base_prime,
        r.s() == pmul(a.s(), b.s(), a.p()),
{
    let p = a.base_prime;
    let la = a.coeffs.len();
    let lb = b.coeffs.len();
    if la == 0 || lb == 0 {
        let r = Polynomial::zero(p);
        proof {
            assert(pmul(a.s(), b.s(), a.p()) == Seq::<int>::empty());
        }
        return r;
    }
    let n = la + lb - 1;
    let mut acc: Vec<u64> = Vec::new();
    for k in 0..n
        invariant
            acc.len() == k,
            forall|i: int| 0 <= i < k ==> #[trigger] acc@[i] == 0,
    {
        acc.push(0);
    }
    let ghost sa = a.s();
    let ghost sb = b.s();
    let ghost pp = p as int;
    for i in 0..la
        invariant
            a.wf(),
            b.wf(),
            sa == a.s(),
            sb == b.s(),
            pp == p as int,
            p == a.base_prime,
            p == b.base_prime,
            la == sa.len(),
            lb == sb.len(),
            n == la + lb - 1,
            acc.len() == n,
            forall|k: int| 0 <= k < n ==> #[trigger] acc@[k] as int == conv(sa, sb, k, i as int) % pp,
    {
        for j in 0..lb
            invariant
                a.wf(),
                b.wf(),
                sa == a.s(),
                sb == b.s(),
                pp == p as int,
                p == a.base_prime,
                p == b.base_prime,
                la == sa.len(),
                lb == sb.len(),
                n == la + lb - 1,
                0 <= i < la,
                acc.len() == n,
                forall|k: int|
                    0 <= k < n ==> #[trigger] acc@[k] as int == (conv(sa, sb, k, i as int) + (if i
                        <= k < i + j {
                        sa[i as int] * sb[k - i]
                    } else {
                        0
                    })) % pp,
        {
            let k0 = i + j;
            let ai = a.coeffs[i] as u64;
            let bj = b.coeffs[j] as u64;
            let old_acc = acc[k0];
            proof {
                a.lemma_s();
                b.lemma_s();
                assert(ai == sa[i as int] && bj == sb[j as int]);
                assert(reduced(sa, pp) && reduced(sb, pp));
                assert(0 <= sa[i as int] < pp);
                assert(0 <= sb[j as int] < pp);
                assert(ai < p && bj < p);
                lemma_mod_bound(conv(sa, sb, k0 as int, i as int) + (if i <= k0 < i + j {
                    sa[i as int] * sb[k0 - i]
                } else {
                    0
                }), pp);
                assert(old_acc < p);
                assert(ai * bj <= (p - 1) * (p - 1)) by (nonlinear_arith)
                    requires
                        ai < p,
                        bj < p,
                ;
                assert((p - 1) * (p - 1) + p <= u64::MAX) by (nonlinear_arith)
                    requires
                        p <= u32::MAX,
                        p > 0,
                ;
            }
            let next = (old_acc + ai * bj) % (p as u64);
            proof {
                let x = conv(sa, sb, k0 as int, i as int);
                lemma_add_mod_noop(x, ai * bj, pp);
                lemma_mod_twice(x, pp);
                lemma_mod_bound(ai * bj, pp);
                lemma_add_mod_noop(x % pp, ai * bj, pp);
            }
            acc.set(k0, next);
            proof {
                assert forall|k: int| 0 <= k < n implies #[trigger] acc@[k] as int == (conv(
                    sa,
                    sb,
                    k,
                    i as int,
                ) + (if i <= k < i + j + 1 {
                    sa[i as int] * sb[k - i]
                } else {
                    0
                })) % pp by {
                    if k != k0 {
                    }
                }
            }
        }
        proof {
            assert forall|k: int| 0 <= k < n implies #[trigger] acc@[k] as int == conv(
                sa,
                sb,
                k,
                i + 1,
            ) % pp by {
                assert(conv(sa, sb, k, i + 1) == conv(sa, sb, k, i as int) + pc(sa, i as int) * pc(
                    sb,
                    k - i,
                ));
                if !(i <= k < i + lb) {
                    assert(pc(sb, k - i) == 0);
                    assert(pc(sa, i as int) * 0 == 0);
                }
            }
        }
    }
    let mut v: Vec<u32> = Vec::new();
    for k in 0..n
        invariant
            acc.len() == n,
            v.len() == k,
            pp == p as int,
            p > 0,
            forall|i: int| 0 <= i < n ==> #[trigger] acc@[i] as int == conv(sa, sb, i, la as int) % pp,
            forall|i: int| 0 <= i < k ==> #[trigger] v@[i] as int == conv(sa, sb, i, la as int) % pp,
    {
        proof {
            lemma_mod_bound(conv(sa, sb, k as int, la as int), pp);
        }
        v.push(acc[k] as u32);
    }
    proof {
        assert forall|i: int| 0 <= i < v.len() implies v@[i] < p by {
            lemma_mod_bound(conv(sa, sb, i, la as int), pp);
        }
    }
    let r = Polynomial::from_vec(p, v);
    proof {
        lemma_pmul(sa, sb, pp);
        assert forall|k: int| #[trigger] pc(r.s(), k) == pc(pmul(sa, sb, pp), k) by {
            assert(pc(r.s(), k) == pc(v@.map_values(|c: u32| c as int), k));
            if !(0 <= k < n) {
                lemma_conv_vanishes(sa, sb, k, la as int);
                assert(0int % pp == 0);
            }
        }
        lemma_pc_ext(r.s(), pmul(sa, sb, pp));
    }
    r
}


// ---------------------------------------------------------------------------
// Inverses in Z_p.
// ---------------------------------------------------------------------------
/// `s` is the inverse of `c` in `Z_p`, reduced below `p`.
pub open spec fn is_inverse_mod(s: int, c: int, p: int) -> bool {
    0 <= s < p && (s * c) % p == 1
}

/// The inverse of `c` in `Z_p` (meaningful when `p` is prime and `c` is not a multiple of `p`).
pub open spec fn inv_mod(c: int, p: int) -> int {
    choose|s: int| is_inverse_mod(s, c, p)
}

/// Inverses in `Z_p` are unique.
pub proof fn lemma_inverse_unique(s: int, t: int, c: int, p: int)
    requires
        p > 1,
        is_inverse_mod(s, c, p),
        is_inverse_mod(t, c, p),
    ensures
        s == t,
{
    lemma_mul_mod_noop_right(s, t * c, p);
    lemma_mul_mod_noop_right(t, s * c, p);
    assert(s * (t * c) == t * (s * c)) by (nonlinear_arith);
    lemma_small_mod(s as nat, p as nat);
    lemma_small_mod(t as nat, p as nat);
}

/// The inverse of `c` in `Z_p`, computed with the extended Euclidean algorithm.
pub fn mod_inverse(c: u32, p: u32) -> (r: u32)
    requires
        spec_is_prime(p as int),
        0 < c < p,
    ensures
        is_inverse_mod(r as int, c as int, p as int),
        r as int == inv_mod(c as int, p as int),
{
    let (s, t, g) = egcd(c, p);
    proof {
        lemma_gcd_with_prime(c as int, p as int, g as int);
        assert(s * c == 1 + (p as int) * (-t)) by (nonlinear_arith)
            requires
                s * c + t * p == 1,
        ;
        lemma_mod_multiples_vanish(-t, 1, p as int);
        lemma_small_mod(1, p as nat);
        assert((s * c) % (p as int) == 1);
    }
    let x = ((s + p as i64) as u64) % (p as u64);
    proof {
        lemma_mod_add_multiples_vanish(s as int, p as int);
        lemma_mul_mod_noop_left(s as int, c as int, p as int);
        assert(is_inverse_mod(x as int, c as int, p as int));
        lemma_inverse_unique(x as int, inv_mod(c as int, p as int), c as int, p as int);
    }
    x as u32
}

// ---------------------------------------------------------------------------
// Lemmas about products.
// ---------------------------------------------------------------------------
/// Extra terms beyond the length of the left factor contribute nothing.
pub proof fn lemma_conv_extend(a: Seq<int>, b: Seq<int>, k: int, n: int)
    requires
        n >= a.len(),
    ensures
        conv(a, b, k, n) == prod_coeff(a, b, k),
    decreases n,
{
    if n > a.len() {
        lemma_conv_extend(a, b, k, n - 1);
        assert(pc(a, n - 1) == 0);
        assert(0 * pc(b, k - (n - 1)) == 0);
    }
}

proof fn lemma_conv_monomial(d: nat, c: int, b: Seq<int>, k: int, n: int)
    requires
        0 <= n <= d + 1,
    ensures
        conv(monomial(d, c), b, k, n) == if n == d + 1 {
            c * pc(b, k - d)
        } else {
            0
        },
    decreases n,
{
    if n > 0 {
        lemma_conv_monomial(d, c, b, k, n - 1);
        if n - 1 != d {
            assert(pc(monomial(d, c), n - 1) == 0);
            assert(0 * pc(b, k - (n - 1)) == 0);
        }
    }
}

/// The coefficients of `c * x^d * b`.
pub proof fn lemma_prod_monomial(d: nat, c: int, b: Seq<int>, k: int)
    ensures
        prod_coeff(monomial(d, c), b, k) == c * pc(b, k - d),
{
    lemma_conv_monomial(d, c, b, k, d + 1 as int);
}

/// Congruences modulo `p` add up.
pub proof fn lemma_mod_add_cong(a: int, b: int, c: int, d: int, p: int)
    requires
        p > 0,
        a % p == c % p,
        b % p == d % p,
    ensures
        (a + b) % p == (c + d) % p,
{
    lemma_add_mod_noop(a, b, p);
    lemma_add_mod_noop(c, d, p);
}

proof fn lemma_conv_add(x: Seq<int>, y: Seq<int>, z: Seq<int>, b: Seq<int>, k: int, n: int, p: int)
    requires
        p > 0,
        forall|i: int| #[trigger] pc(x, i) % p == (pc(y, i) + pc(z, i)) % p,
    ensures
        conv(x, b, k, n) % p == (conv(y, b, k, n) + conv(z, b, k, n)) % p,
    decreases n,
{
    if n > 0 {
        lemma_conv_add(x, y, z, b, k, n - 1, p);
        let bj = pc(b, k - (n - 1));
        let xi = pc(x, n - 1);
        let yi = pc(y, n - 1);
        let zi = pc(z, n - 1);
        lemma_mul_mod_noop_left(xi, bj, p);
        lemma_mul_mod_noop_left(yi + zi, bj, p);
        assert((yi + zi) * bj == yi * bj + zi * bj) by (nonlinear_arith);
        assert((xi * bj) % p == (yi * bj + zi * bj) % p);
        lemma_mod_add_cong(
            conv(x, b, k, n - 1),
            xi * bj,
            conv(y, b, k, n - 1) + conv(z, b, k, n - 1),
            yi * bj + zi * bj,
            p,
        );
        assert(conv(y, b, k, n - 1) + conv(z, b, k, n - 1) + (yi * bj + zi * bj) == conv(
            y,
            b,
            k,
            n,
        ) + conv(z, b, k, n));
    }
}

/// Multiplication distributes over addition in `Z_p`, coefficient by coefficient.
pub proof fn lemma_prod_coeff_add(q: Seq<int>, t: Seq<int>, b: Seq<int>, k: int, p: int)
    requires
        p > 0,
    ensures
        prod_coeff(padd(q, t, p), b, k) % p == (prod_coeff(q, b, k) + prod_coeff(t, b, k)) % p,
{
    lemma_padd(q, t, p);
    let x = padd(q, t, p);
    let n = max_len(q, t) as int;
    assert(x.len() <= n) by {
        lemma_from_fn(max_len(q, t), |k: int| (pc(q, k) + pc(t, k)) % p);
    }
    assert forall|i: int| #[trigger] pc(x, i) % p == (pc(q, i) + pc(t, i)) % p by {
        lemma_mod_twice(pc(q, i) + pc(t, i), p);
    }
    lemma_conv_add(x, q, t, b, k, n, p);
    lemma_conv_extend(x, b, k, n);
    lemma_conv_extend(q, b, k, n);
    lemma_conv_extend(t, b, k, n);
}

/// A trimmed sequence whose coefficients vanish from `n` on has length at most `n`.
proof fn lemma_trimmed_len(a: Seq<int>, n: int)
    requires
        is_trimmed(a),
        n >= 0,
        forall|k: int| k >= n ==> #[trigger] pc(a, k) == 0,
    ensures
        a.len() <= n,
{
    if a.len() > n {
        assert(pc(a, a.len() - 1) == 0);
    }
}

// ---------------------------------------------------------------------------
// Long division.
// ---------------------------------------------------------------------------
/// The coefficient of the next quotient term when dividing `r` by `b` over `Z_p`.
pub open spec fn div_step_coeff(r: Seq<int>, b: Seq<int>, p: int) -> int {
    (inv_mod(b.last(), p) * r.last()) % p
}

/// The next quotient term `c * x^(deg r - deg b)`.
pub open spec fn div_step_term(r: Seq<int>, b: Seq<int>, p: int) -> Seq<int> {
    monomial((r.len() - b.len()) as nat, div_step_coeff(r, b, p))
}

/// Polynomial long division over `Z_p`: starting from quotient `q` and remainder `r`,
/// subtract multiples of `b` until the remainder has lower degree than `b`.
/// Returns the final `(quotient, remainder)`.
pub open spec fn spec_divmod(q: Seq<int>, r: Seq<int>, b: Seq<int>, p: int) -> (Seq<int>, Seq<int>)
    decreases r.len(),
{
    if b.len() == 0 || r.len() < b.len() {
        (q, r)
    } else {
        let t = div_step_term(r, b, p);
        let r2 = psub(r, pmul(t, b, p), p);
        if r2.len() < r.len() {
            spec_divmod(padd(q, t, p), r2, b, p)
        } else {
            (q, r)
        }
    }
}

/// The remainder of `a` divided by `b` over `Z_p`.
pub open spec fn poly_rem(a: Seq<int>, b: Seq<int>, p: int) -> Seq<int> {
    spec_divmod(Seq::empty(), a, b, p).1
}

/// One step of long division lowers the degree of the remainder and keeps
/// `q * b + r` unchanged modulo `p`.
proof fn lemma_div_step(q: Seq<int>, r: Seq<int>, b: Seq<int>, p: int)
    requires
        spec_is_prime(p),
        canonical(r, p),
        canonical(b, p),
        b.len() > 0,
        r.len() >= b.len(),
    ensures
        psub(r, pmul(div_step_term(r, b, p), b, p), p).len() < r.len(),
        forall|k: int|
            (prod_coeff(padd(q, div_step_term(r, b, p), p), b, k) + #[trigger] pc(
                psub(r, pmul(div_step_term(r, b, p), b, p), p),
                k,
            )) % p == (prod_coeff(q, b, k) + pc(r, k)) % p,
{
    let d = (r.len() - b.len()) as nat;
    let c = div_step_coeff(r, b, p);
    let t = div_step_term(r, b, p);
    let tb = pmul(t, b, p);
    let r2 = psub(r, tb, p);
    let lb = b.last();
    let lr = r.last();
    assert(0 <= lb < p && lb != 0) by {
        assert(b[b.len() - 1] == lb);
    }
    assert(0 <= lr < p) by {
        assert(r[r.len() - 1] == lr);
    }
    let inv = inv_mod(lb, p);
    assert(is_inverse_mod(inv, lb, p)) by {
        lemma_inverse_exists(lb, p);
    }
    lemma_pmul(t, b, p);
    lemma_psub(r, tb, p);
    // Coefficients at and above deg r vanish.
    assert forall|k: int| k >= r.len() - 1 implies #[trigger] pc(r2, k) == 0 by {
        lemma_prod_monomial(d, c, b, k);
        if k >= r.len() {
            assert(pc(r, k) == 0);
            assert(pc(b, k - d) == 0);
            assert(c * 0 == 0);
            assert(0int % p == 0);
            assert((0 - 0) % p == 0);
        } else {
            assert(k - d == b.len() - 1);
            assert(pc(b, k - d) == lb);
            assert(pc(r, k) == lr);
            // c * lb == inv * lr * lb == lr * (inv * lb) == lr (mod p)
            lemma_mul_mod_noop_left(inv * lr, lb, p);
            assert((inv * lr) * lb == lr * (inv * lb)) by (nonlinear_arith);
            lemma_mul_mod_noop_right(lr, inv * lb, p);
            lemma_small_mod(lr as nat, p as nat);
            assert((c * lb) % p == lr);
            lemma_mod_twice(c * lb, p);
            lemma_sub_mod_noop(lr, (c * lb) % p, p);
            assert((lr - lr) % p == 0);
        }
    }
    lemma_trimmed_len(r2, r.len() - 1);
    // The identity.
    assert forall|k: int|
        (prod_coeff(padd(q, t, p), b, k) + #[trigger] pc(r2, k)) % p == (prod_coeff(q, b, k) + pc(
            r,
            k,
        )) % p by {
        let x = prod_coeff(q, b, k);
        let y = prod_coeff(t, b, k);
        lemma_prod_coeff_add(q, t, b, k, p);
        assert(pc(r2, k) == (pc(r, k) - y % p) % p);
        lemma_sub_mod_noop(pc(r, k), y, p);
        lemma_mod_twice(y, p);
        assert(pc(r2, k) % p == (pc(r, k) - y) % p) by {
            lemma_mod_twice(pc(r, k) - y % p, p);
            lemma_sub_mod_noop(pc(r, k), y % p, p);
            lemma_mod_twice(pc(r, k), p);
        }
        lemma_mod_add_cong(prod_coeff(padd(q, t, p), b, k), pc(r2, k), x + y, pc(r, k) - y, p);
        assert(x + y + (pc(r, k) - y) == x + pc(r, k));
    }
}

/// Inverses exist modulo a prime.
pub proof fn lemma_inverse_exists(c: int, p: int)
    requires
        spec_is_prime(p),
        0 < c < p,
    ensures
        is_inverse_mod(inv_mod(c, p), c, p),
{
    let (s, t) = lemma_bezout(c, p);
    let g = s * c + t * p;
    lemma_gcd_with_prime(c, p, g);
    assert(s * c == 1 + p * (-t)) by (nonlinear_arith)
        requires
            s * c + t * p == 1,
    ;
    lemma_mod_multiples_vanish(-t, 1, p);
    lemma_small_mod(1, p as nat);
    let x = s % p;
    lemma_mod_bound(s, p);
    lemma_mul_mod_noop_left(s, c, p);
    assert(is_inverse_mod(x, c, p));
}


impl Clone for Polynomial {
    fn clone(&self) -> (r: Self)
        ensures
            r.p() == self.p(),
            r.s() == self.s(),
    {
        proof {
            use_type_invariant(self);
        }
        let coeffs = self.coeffs.clone();
        proof {
            assert(coeffs@ =~= self.coeffs@);
        }
        Polynomial { base_prime: self.base_prime, coeffs }
    }
}

/// The coefficient of `x^k` given by a list of `(power, coefficient)` pairs,
/// where a later pair for the same power replaces an earlier one.
pub open spec fn pairs_coeff(pairs: Seq<(u32, u32)>, k: int) -> int
    decreases pairs.len(),
{
    if pairs.len() == 0 {
        0
    } else if pairs.last().0 as int == k {
        pairs.last().1 as int
    } else {
        pairs_coeff(pairs.drop_last(), k)
    }
}

fn exec_monomial(base_prime: u32, deg: usize, c: u32) -> (r: Polynomial)
    requires
        base_prime > 0,
        0 < c < base_prime,
        deg + 1 < u32::MAX,
    ensures
        r.wf(),
        r.base_prime == base_prime,
        r.s() == monomial(deg as nat, c as int),
{
    let mut coeffs: Vec<u32> = Vec::new();
    for i in 0..deg
        invariant
            coeffs.len() == i,
            forall|j: int| 0 <= j < i ==> #[trigger] coeffs@[j] == 0,
    {
        coeffs.push(0);
    }
    coeffs.push(c);
    let r = Polynomial { base_prime, coeffs };
    proof {
        assert(r.s() =~= monomial(deg as nat, c as int));
    }
    r
}

/// `(c * lb) % p == lr` for the next quotient coefficient `c`.
proof fn lemma_div_step_coeff(lr: int, lb: int, p: int)
    requires
        spec_is_prime(p),
        0 <= lr < p,
        0 < lb < p,
    ensures
        (((inv_mod(lb, p) * lr) % p) * lb) % p == lr,
{
    let inv = inv_mod(lb, p);
    lemma_inverse_exists(lb, p);
    let c = (inv * lr) % p;
    lemma_mul_mod_noop_left(inv * lr, lb, p);
    assert((inv * lr) * lb == lr * (inv * lb)) by (nonlinear_arith);
    lemma_mul_mod_noop_right(lr, inv * lb, p);
    lemma_small_mod(lr as nat, p as nat);
}

impl Polynomial {
    /// Build a polynomial over `Z_p` from `(power, coefficient)` pairs; coefficients are
    /// reduced modulo `p` and a later pair for the same power replaces an earlier one.
    pub fn new(base_prime: u32, coeffs: Vec<(u32, u32)>) -> (r: Self)
        requires
            base_prime > 0,
            forall|i: int| 0 <= i < coeffs.len() ==> #[trigger] coeffs[i].0 < u32::MAX - 1,
        ensures
            r.wf(),
            r.p() == base_prime as int,
            forall|k: int| #[trigger] pc(r.s(), k) == pairs_coeff(coeffs@, k) % (base_prime as int),
    {
        let mut n: usize = 0;
        for i in 0..coeffs.len()
            invariant
                forall|j: int| 0 <= j < coeffs.len() ==> #[trigger] coeffs[j].0 < u32::MAX - 1,
                n < u32::MAX,
                forall|j: int| 0 <= j < i ==> #[trigger] coeffs[j].0 < n,
        {
            if coeffs[i].0 as usize >= n {
                n = coeffs[i].0 as usize + 1;
            }
        }
        let mut dense: Vec<u32> = Vec::new();
        for i in 0..n
            invariant
                dense.len() == i,
                forall|j: int| 0 <= j < i ==> #[trigger] dense@[j] == 0,
        {
            dense.push(0);
        }
        let ghost p = base_prime as int;
        for i in 0..coeffs.len()
            invariant
                dense.len() == n,
                base_prime > 0,
                p == base_prime as int,
                forall|j: int| 0 <= j < coeffs.len() ==> #[trigger] coeffs[j].0 < n,
                forall|k: int|
                    0 <= k < n ==> #[trigger] dense@[k] as int == pairs_coeff(
                        coeffs@.subrange(0, i as int),
                        k,
                    ) % p,
        {
            let (power, value) = coeffs[i];
            dense.set(power as usize, value % base_prime);
            proof {
                let pre = coeffs@.subrange(0, i as int);
                let post = coeffs@.subrange(0, i + 1);
                assert(post.drop_last() =~= pre);
                assert(post.last() == coeffs@[i as int]);
                assert forall|k: int| 0 <= k < n implies #[trigger] dense@[k] as int == pairs_coeff(
                    post,
                    k,
                ) % p by {
                    if k != power {
                        assert(pairs_coeff(post, k) == pairs_coeff(pre, k));
                    }
                }
            }
        }
        proof {
            assert(coeffs@.subrange(0, coeffs.len() as int) =~= coeffs@);
            assert forall|i: int| 0 <= i < dense.len() implies dense[i] < base_prime by {
                lemma_mod_bound(pairs_coeff(coeffs@, i), p);
            }
        }
        let r = Polynomial::from_vec(base_prime, dense);
        proof {
            assert forall|k: int| #[trigger] pc(r.s(), k) == pairs_coeff(coeffs@, k) % p by {
                assert(pc(r.s(), k) == pc(dense@.map_values(|c: u32| c as int), k));
                if !(0 <= k < n) {
                    lemma_pairs_coeff_absent(coeffs@, k, n as int);
                    assert(0int % p == 0);
                }
            }
        }
        r
    }

    /// Long division: returns the quotient `q` and remainder `r` with `self = q * other + r`
    /// and `deg r < deg other`, or `None` when the base primes differ.
    pub fn divmod(&self, other: &Self) -> (res: Option<(Self, Self)>)
        requires
            self.p() == other.p() ==> spec_is_prime(self.p()) && other.s().len()
                > 0,
        ensures
            res is None <==> self.p() != other.p(),
            res matches Some((q, r)) ==> {
                &&& q.wf()
                &&& r.wf()
                &&& q.p() == self.p()
                &&& r.p() == self.p()
                &&& (q.s(), r.s()) == spec_divmod(Seq::empty(), self.s(), other.s(), self.p())
                &&& r.s().len() < other.s().len()
                &&& padd(pmul(q.s(), other.s(), self.p()), r.s(), self.p()) == self.s()
                &&& forall|k: int|
                    (prod_coeff(q.s(), other.s(), k) + #[trigger] pc(r.s(), k)) % self.p() == pc(
                        self.s(),
                        k,
                    )
            },
    {
        proof {
            use_type_invariant(self);
            use_type_invariant(other);
        }
        if self.base_prime != other.base_prime {
            return None;
        }
        let p = self.base_prime;
        let ghost pp = p as int;
        let ghost b = other.s();
        let mut r = self.clone();
        let mut q = Polynomial::zero(p);
        proof {
            assert forall|k: int|
                (prod_coeff(q.s(), b, k) + #[trigger] pc(r.s(), k)) % pp == pc(self.s(), k) by {
                assert(prod_coeff(q.s(), b, k) == 0);
                if 0 <= k < self.s().len() {
                    lemma_small_mod(self.s()[k] as nat, pp as nat);
                } else {
                    assert(0int % pp == 0);
                }
            }
        }
        while r.degree() >= other.degree() && !r.is_zero()
            invariant
                self.wf(),
                other.wf(),
                q.wf(),
                r.wf(),
                b == other.s(),
                pp == p as int,
                p == self.base_prime,
                p == other.base_prime,
                p == q.base_prime,
                p == r.base_prime,
                spec_is_prime(pp),
                b.len() > 0,
                spec_divmod(q.s(), r.s(), b, pp) == spec_divmod(Seq::empty(), self.s(), b, pp),
                forall|k: int|
                    (prod_coeff(q.s(), b, k) + #[trigger] pc(r.s(), k)) % pp == pc(self.s(), k),
            decreases r.s().len(),
        {
            let (deg1, coeff1) = r.lead_term();
            let (deg2, coeff2) = other.lead_term();
            let deg = (deg1 - deg2) as usize;
            proof {
                assert(b[b.len() - 1] == b.last());
                assert(r.s()[r.s().len() - 1] == r.s().last());
                assert(0 < coeff2 < p);
                assert(0 < coeff1 < p);
            }
            let inv = mod_inverse(coeff2, p);
            proof {
                assert(inv as int * coeff1 as int <= u64::MAX) by (nonlinear_arith)
                    requires
                        inv < p,
                        coeff1 < p,
                        p <= u32::MAX,
                ;
            }
            let coeff = ((inv as u64 * coeff1 as u64) % (p as u64)) as u32;
            proof {
                lemma_div_step_coeff(coeff1 as int, coeff2 as int, pp);
                assert(coeff as int == (inv_mod(coeff2 as int, pp) * coeff1 as int) % pp);
                if coeff == 0 {
                    assert((coeff as int) * (coeff2 as int) == 0) by (nonlinear_arith)
                        requires
                            coeff == 0,
                    ;
                    assert(0int % pp == 0);
                }
                lemma_div_step(q.s(), r.s(), b, pp);
            }
            let t = exec_monomial(p, deg, coeff);
            proof {
                assert(t.s() == div_step_term(r.s(), b, pp));
            }
            let q2 = add_impl(&q, &t);
            let tb = mul_impl(&t, other);
            let r2 = sub_impl(&r, &tb);
            q = q2;
            r = r2;
        }
        proof {
            assert(r.s().len() < b.len());
            lemma_reassemble(self.s(), b, q.s(), r.s(), pp);
        }
        Some((q, r))
    }
}

/// In `Z_p` with `p` prime, the product of two nonzero residues is nonzero.
proof fn lemma_no_zero_divisors(x: int, y: int, p: int)
    requires
        spec_is_prime(p),
        0 < x < p,
        0 < y < p,
    ensures
        (x * y) % p != 0,
{
    lemma_inverse_exists(x, p);
    let s = inv_mod(x, p);
    if (x * y) % p == 0 {
        lemma_mul_mod_noop_right(s, x * y, p);
        assert(s * 0 == 0);
        assert(0int % p == 0);
        assert(s * (x * y) == (s * x) * y) by (nonlinear_arith);
        lemma_mul_mod_noop_left(s * x, y, p);
        assert(1 * y == y);
        lemma_small_mod(y as nat, p as nat);
        assert(false);
    }
}

/// Below the last coefficient of `a`, no term reaches the top coefficient of `a * b`.
proof fn lemma_conv_top(a: Seq<int>, b: Seq<int>, n: int)
    requires
        a.len() > 0,
        b.len() > 0,
        0 <= n <= a.len() - 1,
    ensures
        conv(a, b, a.len() + b.len() - 2, n) == 0,
    decreases n,
{
    if n > 0 {
        lemma_conv_top(a, b, n - 1);
        assert(pc(b, a.len() + b.len() - 2 - (n - 1)) == 0);
        assert(pc(a, n - 1) * 0 == 0);
    }
}

/// Over `Z_p` with `p` prime, the degree of a product of nonzero polynomials is the sum of
/// their degrees: the product of polynomials of `m` and `n` coefficients has `m + n - 1`.
pub proof fn law_product_degree(a: Seq<int>, b: Seq<int>, p: int)
    requires
        spec_is_prime(p),
        canonical(a, p),
        canonical(b, p),
        a.len() > 0,
        b.len() > 0,
    ensures
        pmul(a, b, p).len() == a.len() + b.len() - 1,
{
    let k = a.len() + b.len() - 2;
    lemma_conv_top(a, b, a.len() - 1);
    assert(prod_coeff(a, b, k) == a.last() * b.last());
    assert(a[a.len() - 1] == a.last() && b[b.len() - 1] == b.last());
    lemma_no_zero_divisors(a.last(), b.last(), p);
    lemma_pmul(a, b, p);
    lemma_from_fn((a.len() + b.len() - 1) as nat, |j: int| prod_coeff(a, b, j) % p);
    assert(pc(pmul(a, b, p), k) != 0);
}

/// The degree of a sum is at most the larger degree: a sum has no more coefficients than
/// the longer of its terms.
pub proof fn law_sum_degree(a: Seq<int>, b: Seq<int>, p: int)
    requires
        p > 0,
    ensures
        padd(a, b, p).len() <= max_len(a, b),
{
    lemma_padd(a, b, p);
}

/// Where `q * b + r` agrees with the canonical `a` coefficient by coefficient modulo `p`,
/// the polynomial `q * b + r` over `Z_p` is `a`.
proof fn lemma_reassemble(a: Seq<int>, b: Seq<int>, q: Seq<int>, r: Seq<int>, p: int)
    requires
        p > 0,
        canonical(a, p),
        canonical(r, p),
        forall|k: int| (prod_coeff(q, b, k) + #[trigger] pc(r, k)) % p == pc(a, k),
    ensures
        padd(pmul(q, b, p), r, p) == a,
{
    lemma_pmul(q, b, p);
    lemma_padd(pmul(q, b, p), r, p);
    assert forall|k: int| #[trigger] pc(padd(pmul(q, b, p), r, p), k) == pc(a, k) by {
        assert((prod_coeff(q, b, k) + pc(r, k)) % p == pc(a, k));
        vstd::arithmetic::div_mod::lemma_add_mod_noop(prod_coeff(q, b, k), pc(r, k), p);
        if 0 <= k < r.len() {
            lemma_small_mod(r[k] as nat, p as nat);
        } else {
            assert(0int % p == 0);
        }
    }
    lemma_pc_ext(padd(pmul(q, b, p), r, p), a);
}

proof fn lemma_pairs_coeff_absent(pairs: Seq<(u32, u32)>, k: int, n: int)
    requires
        forall|j: int| 0 <= j < pairs.len() ==> #[trigger] pairs[j].0 < n,
        !(0 <= k < n),
    ensures
        pairs_coeff(pairs, k) == 0,
    decreases pairs.len(),
{
    if pairs.len() > 0 {
        assert(pairs.last() == pairs[pairs.len() - 1]);
        lemma_pairs_coeff_absent(pairs.drop_last(), k, n);
    }
}


// ---------------------------------------------------------------------------
// Arithmetic traits: the result is `None` when the base primes differ.
// ---------------------------------------------------------------------------
/// Addition of polynomials over `Z_p`.
pub trait PolyAdd<Rhs> {
    fn add(self, rhs: Rhs) -> Option<Polynomial>;
}

/// Subtraction of polynomials over `Z_p`.
pub trait PolySub<Rhs> {
    fn sub(self, rhs: Rhs) -> Option<Polynomial>;
}

/// Multiplication of polynomials over `Z_p`.
pub trait PolyMul<Rhs> {
    /// The product's degree must stay within range.
    spec fn mul_requires(self, rhs: Rhs) -> bool;

    fn mul(self, rhs: Rhs) -> Option<Polynomial>
        requires
            self.mul_requires(rhs),
    ;
}

impl<'a> PolyAdd<&'a Polynomial> for &'a Polynomial {
    fn add(self, rhs: &'a Polynomial) -> (r: Option<Polynomial>)
        ensures
            r is None <==> self.p() != rhs.p(),
            r matches Some(x) ==> x.p() == self.p() && x.s() == padd(self.s(), rhs.s(), self.p()),
    {
        proof {
            use_type_invariant(self);
            use_type_invariant(rhs);
        }
        if self.base_prime != rhs.base_prime {
            return None;
        }
        Some(add_impl(self, rhs))
    }
}

impl<'a> PolyAdd<&'a Polynomial> for Option<Polynomial> {
    fn add(self, rhs: &'a Polynomial) -> (r: Option<Polynomial>)
        ensures
            r is None <==> (self is None || self.unwrap().p() != rhs.p()),
            r matches Some(x) ==> x.p() == rhs.p() && x.s() == padd(
                self.unwrap().s(),
                rhs.s(),
                rhs.p(),
            ),
    {
        match self {
            Some(a) => (&a).add(rhs),
            None => None,
        }
    }
}

impl<'a> PolySub<&'a Polynomial> for &'a Polynomial {
    fn sub(self, rhs: &'a Polynomial) -> (r: Option<Polynomial>)
        ensures
            r is None <==> self.p() != rhs.p(),
            r matches Some(x) ==> x.p() == self.p() && x.s() == psub(self.s(), rhs.s(), self.p()),
    {
        proof {
            use_type_invariant(self);
            use_type_invariant(rhs);
        }
        if self.base_prime != rhs.base_prime {
            return None;
        }
        Some(sub_impl(self, rhs))
    }
}

impl<'a> PolySub<&'a Polynomial> for Option<Polynomial> {
    fn sub(self, rhs: &'a Polynomial) -> (r: Option<Polynomial>)
        ensures
            r is None <==> (self is None || self.unwrap().p() != rhs.p()),
            r matches Some(x) ==> x.p() == rhs.p() && x.s() == psub(
                self.unwrap().s(),
                rhs.s(),
                rhs.p(),
            ),
    {
        match self {
            Some(a) => (&a).sub(rhs),
            None => None,
        }
    }
}

impl<'a> PolyMul<&'a Polynomial> for &'a Polynomial {
    open spec fn mul_requires(self, rhs: &'a Polynomial) -> bool {
        self.s().len() + rhs.s().len() <= u32::MAX
    }

    fn mul(self, rhs: &'a Polynomial) -> (r: Option<Polynomial>)
        ensures
            r is None <==> self.p() != rhs.p(),
            r matches Some(x) ==> x.p() == self.p() && x.s() == pmul(self.s(), rhs.s(), self.p()),
    {
        proof {
            use_type_invariant(self);
            use_type_invariant(rhs);
        }
        if self.base_prime != rhs.base_prime {
            return None;
        }
        Some(mul_impl(self, rhs))
    }
}

impl<'a> PolyMul<&'a Polynomial> for Option<Polynomial> {
    open spec fn mul_requires(self, rhs: &'a Polynomial) -> bool {
        self matches Some(a) ==> a.s().len() + rhs.s().len() <= u32::MAX
    }

    fn mul(self, rhs: &'a Polynomial) -> (r: Option<Polynomial>)
        ensures
            r is None <==> (self is None || self.unwrap().p() != rhs.p()),
            r matches Some(x) ==> x.p() == rhs.p() && x.s() == pmul(
                self.unwrap().s(),
                rhs.s(),
                rhs.p(),
            ),
    {
        match self {
            Some(a) => (&a).mul(rhs),
            None => None,
        }
    }
}


// ---------------------------------------------------------------------------
// Greatest common divisors and irreducibility.
// ---------------------------------------------------------------------------
/// The Euclidean algorithm: the last nonzero remainder of the sequence starting with `r0, r1`.
pub open spec fn euclid(r0: Seq<int>, r1: Seq<int>, p: int) -> Seq<int>
    decreases r1.len(),
{
    if r1.len() == 0 {
        r0
    } else {
        let r = poly_rem(r0, r1, p);
        if r.len() < r1.len() {
            euclid(r1, r, p)
        } else {
            r1
        }
    }
}

/// Scale a nonzero polynomial so that its leading coefficient is one.
pub open spec fn make_monic(g: Seq<int>, p: int) -> Seq<int> {
    pscale(g, inv_mod(g.last(), p), p)
}

/// The monic greatest common divisor of `a` and `b` over `Z_p`, by the Euclidean algorithm.
pub open spec fn spec_poly_gcd(a: Seq<int>, b: Seq<int>, p: int) -> Seq<int> {
    make_monic(euclid(a, b, p), p)
}

/// `pow(b, e)` for machine integers; the result must fit in a `u32`.
pub fn int_pow(b: u32, e: u32) -> (r: u32)
    requires
        b > 0,
        pow(b as int, e as nat) <= u32::MAX,
    ensures
        r as int == pow(b as int, e as nat),
{
    let mut acc: u64 = 1;
    let mut i: u32 = 0;
    proof {
        lemma_pow0(b as int);
    }
    while i < e
        invariant
            i <= e,
            b > 0,
            pow(b as int, e as nat) <= u32::MAX,
            acc as int == pow(b as int, i as nat),
        decreases e - i,
    {
        proof {
            lemma_pow_adds(b as int, i as nat, 1);
            lemma_pow1(b as int);
            lemma_pow_increases(b as nat, (i + 1) as nat, e as nat);
        }
        acc = acc * b as u64;
        i = i + 1;
    }
    acc as u32
}

proof fn lemma_inv_mod_one(p: int)
    requires
        p > 1,
    ensures
        inv_mod(1, p) == 1,
{
    lemma_small_mod(1, p as nat);
    assert(is_inverse_mod(1, 1, p));
    lemma_inverse_unique(1, inv_mod(1, p), 1, p);
}

/// The monic greatest common divisor of `a` and `b`, by the Euclidean algorithm.
pub fn poly_gcd(a: &Polynomial, b: &Polynomial) -> (g: Polynomial)
    requires
        a.p() == b.p(),
        spec_is_prime(a.p()),
        b.s().len() > 0,
    ensures
        g.p() == a.p(),
        g.s() == spec_poly_gcd(a.s(), b.s(), a.p()),
        g.s().len() > 0,
        g.s().last() == 1,
{
    proof {
        use_type_invariant(a);
        use_type_invariant(b);
    }
    let ghost pp = a.p();
    let mut r0 = a.clone();
    let mut r1 = b.clone();
    let mut r = r0.divmod(&r1).unwrap().1;
    while !r.is_zero()
        invariant
            r0.p() == pp,
            r1.p() == pp,
            r.p() == pp,
            spec_is_prime(pp),
            r1.s().len() > 0,
            r.s() == poly_rem(r0.s(), r1.s(), pp),
            r.s().len() < r1.s().len(),
            euclid(r0.s(), r1.s(), pp) == euclid(a.s(), b.s(), pp),
        decreases r1.s().len(),
    {
        proof {
            use_type_invariant(&r);
        }
        r0 = r1;
        r1 = r;
        r = r0.divmod(&r1).unwrap().1;
    }
    proof {
        use_type_invariant(&r1);
        assert(euclid(r0.s(), r1.s(), pp) == euclid(r1.s(), r.s(), pp));
        assert(euclid(r1.s(), r.s(), pp) == r1.s());
        assert(r1.s()[r1.s().len() - 1] == r1.s().last());
    }
    let (_, c) = r1.lead_term();
    let p = r1.base_prime();
    proof {
        lemma_inverse_exists(c as int, pp);
    }
    if c != 1 {
        let c_inv = mod_inverse(c, p);
        let mut v: Vec<u32> = Vec::new();
        let n = r1.coeffs.len();
        for k in 0..n
            invariant
                n == r1.s().len(),
                p as int == pp,
                r1.p() == pp,
                pp > 1,
                c_inv < p,
                v.len() == k,
                forall|i: int| 0 <= i < k ==> #[trigger] v@[i] as int == (c_inv * pc(r1.s(), i)) % pp,
        {
            let x = r1.coeffs[k] as u64;
            proof {
                use_type_invariant(&r1);
                r1.lemma_s();
                assert(x == r1.s()[k as int]);
                assert(0 <= r1.s()[k as int] < pp);
                assert(c_inv * x <= u64::MAX) by (nonlinear_arith)
                    requires
                        c_inv < p,
                        x < p,
                        p <= u32::MAX,
                ;
            }
            v.push(((c_inv as u64 * x) % (p as u64)) as u32);
        }
        proof {
            assert forall|i: int| 0 <= i < v.len() implies v[i] < p by {
                lemma_mod_bound(c_inv * pc(r1.s(), i), pp);
            }
        }
        let g = Polynomial::from_vec(p, v);
        proof {
            let target = make_monic(r1.s(), pp);
            lemma_pscale(r1.s(), c_inv as int, pp);
            assert forall|k: int| #[trigger] pc(g.s(), k) == pc(target, k) by {
                assert(pc(g.s(), k) == pc(v@.map_values(|c: u32| c as int), k));
                if !(0 <= k < n) {
                    assert(pc(r1.s(), k) == 0);
                    assert(c_inv * 0 == 0);
                    assert(0int % pp == 0);
                }
            }
            lemma_pc_ext(g.s(), target);
            lemma_div_step_coeff(1, c as int, pp);
            assert(pc(g.s(), n - 1) == (c_inv * c) % pp);
            lemma_small_mod(1, pp as nat);
            assert(c_inv * c == c * c_inv) by (nonlinear_arith);
            assert(pc(g.s(), n - 1) == 1);
            lemma_pscale(r1.s(), c_inv as int, pp);
        }
        g
    } else {
        proof {
            lemma_inv_mod_one(pp);
            lemma_pscale(r1.s(), 1, pp);
            assert forall|k: int| #[trigger] pc(pscale(r1.s(), 1, pp), k) == pc(r1.s(), k) by {
                if 0 <= k < r1.s().len() {
                    lemma_small_mod(r1.s()[k] as nat, pp as nat);
                } else {
                    assert(0int % pp == 0);
                }
            }
            lemma_pc_ext(pscale(r1.s(), 1, pp), r1.s());
        }
        r1
    }
}

/// The polynomial `x^q - x` over `Z_p` for `q >= 1`, written `x^q + (p - 1) x`; for `q == 1` it is `x`.
pub open spec fn xq_minus_x(q: int, p: int) -> Seq<int> {
    from_fn((q + 1) as nat, xq_coeffs(q, p))
}

/// The coefficients of `x^q + (p - 1) x` before reduction to canonical form.
pub open spec fn xq_coeffs(q: int, p: int) -> spec_fn(int) -> int {
    |k: int|
        (if k == q {
            1
        } else if k == 1 {
            p - 1
        } else {
            0
        }) % p
}

/// Rabin's irreducibility test for a nonzero `f` of degree `n` over `Z_p`: `f` is not a
/// constant (a unit is not irreducible), `f` divides `x^(p^n) - x`, and for every prime `d`
/// dividing `n` the greatest common divisor of `f` and `x^(p^(n/d)) - x` is one.
pub open spec fn rabin_test(f: Seq<int>, p: int) -> bool {
    let n = (f.len() - 1) as int;
    &&& n >= 1
    &&& poly_rem(xq_minus_x(pow(p, n as nat), p), f, p).len() == 0
    &&& forall|d: int|
        (n >= 2 && spec_is_prime(d) && n % d == 0) ==> #[trigger] spec_poly_gcd(
            f,
            xq_minus_x(pow(p, (n / d) as nat), p),
            p,
        ) == seq![1int]
}

proof fn lemma_xq_minus_x(q: int, p: int)
    requires
        q >= 1,
        p > 0,
    ensures
        is_trimmed(xq_minus_x(q, p)),
        forall|k: int|
            0 <= k ==> #[trigger] pc(xq_minus_x(q, p), k) == (if k == q {
                1
            } else if k == 1 {
                p - 1
            } else {
                0
            }) % p,
{
    lemma_from_fn((q + 1) as nat, xq_coeffs(q, p));
    assert forall|k: int|
        0 <= k implies #[trigger] pc(xq_minus_x(q, p), k) == (if k == q {
            1
        } else if k == 1 {
            p - 1
        } else {
            0
        }) % p by {
        if k > q {
            assert(0int % p == 0);
        }
    }
}

fn exec_xq_minus_x(p: u32, q: u32) -> (r: Polynomial)
    requires
        p > 0,
        1 <= q < u32::MAX - 1,
    ensures
        r.p() == p as int,
        r.s() == xq_minus_x(q as int, p as int),
{
    let mut pairs: Vec<(u32, u32)> = Vec::new();
    pairs.push((1, p - 1));
    pairs.push((q, 1));
    let r = Polynomial::new(p, pairs);
    proof {
        let pp = p as int;
        let f = |k: int|
            (if k == q {
                1
            } else if k == 1 {
                pp - 1
            } else {
                0
            }) % pp;
        assert forall|k: int| #[trigger] pairs_coeff(pairs@, k) == (if k == q {
            1
        } else if k == 1 {
            pp - 1
        } else {
            0
        }) by {
            let ps = pairs@;
            assert(ps.last() == (q, 1u32));
            assert(ps.drop_last().last() == (1u32, (p - 1) as u32));
            assert(ps.drop_last().drop_last().len() == 0);
            if k != q {
                assert(pairs_coeff(ps, k) == pairs_coeff(ps.drop_last(), k));
                if k != 1 {
                    assert(pairs_coeff(ps.drop_last(), k) == pairs_coeff(
                        ps.drop_last().drop_last(),
                        k,
                    ));
                }
            }
        }
        assert forall|k: int| 0 <= k < q + 1 implies #[trigger] pc(r.s(), k) == f(k) by {
            assert(pc(r.s(), k) == pairs_coeff(pairs@, k) % pp);
        }
        use_type_invariant(&r);
        assert forall|k: int| k >= q + 1 implies #[trigger] pc(r.s(), k) == 0 by {
            assert(pc(r.s(), k) == pairs_coeff(pairs@, k) % pp);
            assert(0int % pp == 0);
        }
        lemma_xq_minus_x(q as int, pp);
        assert forall|k: int| #[trigger] pc(r.s(), k) == pc(xq_minus_x(q as int, pp), k) by {
            if k < 0 {
            } else if k < q + 1 {
                assert(pc(r.s(), k) == f(k));
            } else {
                assert(0int % pp == 0);
            }
        }
        lemma_pc_ext(r.s(), xq_minus_x(q as int, pp));
    }
    r
}

/// Whether `p` is irreducible over `Z_p`: of degree one or more (a constant is a unit, not
/// irreducible) and passing Rabin's test.
pub fn is_irreducible(p: &Polynomial) -> (res: bool)
    requires
        spec_is_prime(p.p()),
        p.s().len() > 0,
        pow(p.p(), (p.s().len() - 1) as nat) < u32::MAX - 1,
    ensures
        res == rabin_test(p.s(), p.p()),
{
    proof {
        use_type_invariant(p);
    }
    let base = p.base_prime();
    let deg = p.degree();
    if deg == 0 {
        return false;
    }
    let ghost pp = p.p();
    let ghost n = deg as int;
    let q = int_pow(base, deg);
    proof {
        lemma_pow_positive(pp, deg as nat);
    }
    let x = exec_xq_minus_x(base, q);
    let (_, g) = x.divmod(p).unwrap();
    if !g.is_zero() {
        return false;
    }
    let factors = prime_factorization(deg);
    let mut i: usize = 0;
    while i < factors.len()
        invariant
            0 <= i <= factors.len(),
            base as int == pp,
            deg as int == n,
            n == p.s().len() - 1,
            spec_is_prime(pp),
            p.p() == pp,
            p.s().len() > 0,
            pow(pp, n as nat) < u32::MAX - 1,
            poly_rem(xq_minus_x(pow(pp, n as nat), pp), p.s(), pp).len() == 0,
            n < 2 ==> factors.len() == 0,
            forall|j: int| 0 <= j < factors.len() ==> spec_is_prime(#[trigger] factors[j] as int),
            forall|j: int| 0 <= j < factors.len() ==> n % (#[trigger] factors[j] as int) == 0,
            forall|pr: int|
                2 <= n && spec_is_prime(pr) && n % pr == 0 ==> factors@.contains(pr as u32),
            forall|j: int|
                0 <= j < i ==> #[trigger] spec_poly_gcd(
                    p.s(),
                    xq_minus_x(pow(pp, (n / (factors[j] as int)) as nat), pp),
                    pp,
                ) == seq![1int],
        decreases factors.len() - i,
    {
        let d = factors[i];
        proof {
            assert(spec_is_prime(d as int));
            assert(n % (d as int) == 0);
            lemma_mod_is_zero(n as nat, d as nat);
            lemma_fundamental_div_mod(n, d as int);
            assert(n / (d as int) >= 1) by (nonlinear_arith)
                requires
                    n == (d as int) * (n / (d as int)) + 0,
                    n >= 2,
                    d >= 2,
            ;
            assert(n / (d as int) <= n) by (nonlinear_arith)
                requires
                    n == (d as int) * (n / (d as int)) + 0,
                    n >= 2,
                    d >= 2,
            ;
            lemma_pow_increases(pp as nat, (n / (d as int)) as nat, n as nat);
            lemma_pow_increases(pp as nat, 1, (n / (d as int)) as nat);
            lemma_pow1(pp);
        }
        let e = deg / d;
        let r = int_pow(base, e);
        let xr = exec_xq_minus_x(base, r);
        proof {
            lemma_from_fn(
                (r + 1) as nat,
                |k: int|
                    (if k == r {
                        1
                    } else if k == 1 {
                        pp - 1
                    } else {
                        0
                    }) % pp,
            );
            lemma_small_mod(1, pp as nat);
            assert(pc(xr.s(), r as int) == 1);
        }
        let gcd = poly_gcd(p, &xr);
        if !gcd.is_one() {
            proof {
                assert(!(spec_poly_gcd(
                    p.s(),
                    xq_minus_x(pow(pp, (n / (d as int)) as nat), pp),
                    pp,
                ) == seq![1int]));
            }
            return false;
        }
        i = i + 1;
    }
    proof {
        assert forall|d: int|
            (n >= 2 && spec_is_prime(d) && n % d == 0) implies #[trigger] spec_poly_gcd(
            p.s(),
            xq_minus_x(pow(pp, (n / d) as nat), pp),
            pp,
        ) == seq![1int] by {
            assert(factors@.contains(d as u32));
            lemma_mod_is_zero(n as nat, d as nat);
            let j = choose|j: int| 0 <= j < factors.len() && factors@[j] == d as u32;
            assert(factors[j] as int == d);
        }
    }
    true
}


impl Polynomial {
    /// Build a polynomial over `Z_p` from dense coefficients (lowest power first),
    /// reducing each coefficient modulo `p`.
    pub fn from_coeffs(base_prime: u32, coeffs: Vec<u32>) -> (r: Self)
        requires
            base_prime > 0,
            coeffs.len() < u32::MAX,
        ensures
            r.p() == base_prime as int,
            forall|k: int|
                #[trigger] pc(r.s(), k) == pc(coeffs@.map_values(|c: u32| c as int), k) % (
                base_prime as int),
    {
        let mut v: Vec<u32> = Vec::new();
        for i in 0..coeffs.len()
            invariant
                base_prime > 0,
                v.len() == i,
                forall|j: int| 0 <= j < i ==> #[trigger] v@[j] == coeffs@[j] % base_prime,
        {
            v.push(coeffs[i] % base_prime);
        }
        let r = Polynomial::from_vec(base_prime, v);
        proof {
            assert forall|k: int|
                #[trigger] pc(r.s(), k) == pc(coeffs@.map_values(|c: u32| c as int), k) % (
                base_prime as int) by {
                assert(pc(r.s(), k) == pc(v@.map_values(|c: u32| c as int), k));
                if !(0 <= k < coeffs.len()) {
                    assert(0int % (base_prime as int) == 0);
                }
            }
        }
        r
    }

    /// Whether two polynomials are equal: same base prime and same coefficients.
    pub fn equals(&self, other: &Self) -> (r: bool)
        ensures
            r == (self.p() == other.p() && self.s() == other.s()),
    {
        if self.base_prime != other.base_prime || self.coeffs.len() != other.coeffs.len() {
            proof {
                if self.coeffs.len() != other.coeffs.len() {
                    assert(self.s().len() != other.s().len());
                }
            }
            return false;
        }
        for i in 0..self.coeffs.len()
            invariant
                self.coeffs.len() == other.coeffs.len(),
                forall|j: int| 0 <= j < i ==> self.coeffs@[j] == other.coeffs@[j],
        {
            if self.coeffs[i] != other.coeffs[i] {
                proof {
                    assert(self.s()[i as int] != other.s()[i as int]);
                }
                return false;
            }
        }
        proof {
            assert(self.s() =~= other.s());
        }
        true
    }
}

/// `a^n` over `Z_p` for `n >= 1`: the product `a * a * ... * a` of `n` factors.
pub open spec fn ppow(a: Seq<int>, n: nat, p: int) -> Seq<int>
    decreases n,
{
    if n <= 1 {
        a
    } else {
        pmul(ppow(a, (n - 1) as nat, p), a, p)
    }
}

impl Polynomial {
    /// `self^n` for `n >= 1`.
    pub fn pow(&self, n: u32) -> (r: Self)
        requires
            n >= 1,
            (n as int) * self.s().len() <= u32::MAX,
        ensures
            r.p() == self.p(),
            r.s() == ppow(self.s(), n as nat, self.p()),
    {
        proof {
            use_type_invariant(self);
        }
        let ghost len = self.s().len() as int;
        let mut acc = self.clone();
        let mut i: u32 = 1;
        while i < n
            invariant
                1 <= i <= n,
                acc.p() == self.p(),
                self.p() > 0,
                acc.s() == ppow(self.s(), i as nat, self.p()),
                acc.s().len() <= (i as int) * len,
                len == self.s().len(),
                (n as int) * len <= u32::MAX,
            decreases n - i,
        {
            proof {
                assert((i as int) * len + len == ((i + 1) as int) * len) by (nonlinear_arith);
                assert(((i + 1) as int) * len <= (n as int) * len) by (nonlinear_arith)
                    requires
                        i + 1 <= n,
                        len >= 0,
                ;
                lemma_pmul(acc.s(), self.s(), self.p());
            }
            let next = (&acc).mul(self);
            acc = next.unwrap();
            i = i + 1;
        }
        acc
    }
}

} // verus!
