//! Enumeration of monic polynomials and the search for irreducible ones.

use vstd::arithmetic::div_mod::*;
use vstd::arithmetic::power::*;
use vstd::prelude::*;

use crate::arith::spec_is_prime;
use crate::polynomial::{canonical, is_irreducible, lemma_pc_ext, pc, rabin_test, Polynomial};
use crate::radix::{digit, digits};

pub use crate::arith::prime_factorization;

verus! {

/// The `k`-th monic polynomial of degree `n` over `Z_p`: `x^n` plus the polynomial whose
/// coefficients are the `n` lowest base-`p` digits of `k`.
pub open spec fn candidate(p: int, n: nat, k: int) -> Seq<int> {
    digits(k, p, n).push(1)
}

/// The candidates of degree `n` over `Z_p` come in the order `k = 0, 1, ..., p^n - 1`.
pub proof fn lemma_candidate(p: int, n: nat, k: int)
    requires
        p >= 2,
        k >= 0,
    ensures
        canonical(candidate(p, n, k), p),
        candidate(p, n, k).len() == n + 1,
        candidate(p, n, k).last() == 1,
{
    let c = candidate(p, n, k);
    assert forall|i: int| 0 <= i < c.len() implies 0 <= #[trigger] c[i] < p by {
        if i < n {
            lemma_pow_positive(p, i as nat);
            lemma_div_pos_is_pos(k, pow(p, i as nat));
            lemma_mod_bound(k / pow(p, i as nat), p);
        }
    }
}

/// Builds the `k`-th candidate.
fn build_candidate(p: u32, n: usize, k: u32) -> (r: Polynomial)
    requires
        p >= 2,
        n + 1 < u32::MAX,
    ensures
        r.p() == p as int,
        r.s() == candidate(p as int, n as nat, k as int),
{
    let mut v: Vec<u32> = Vec::new();
    let mut m: u32 = k;
    let mut j: usize = 0;
    proof {
        reveal(pow);
        assert(pow(p as int, 0) == 1);
        assert((k as int) / 1 == k as int);
    }
    while j < n
        invariant
            p >= 2,
            j <= n,
            v.len() == j,
            m as int == (k as int) / pow(p as int, j as nat),
            forall|i: int| 0 <= i < j ==> #[trigger] v@[i] as int == digit(k as int, i, p as int),
        decreases n - j,
    {
        proof {
            reveal(pow);
            lemma_pow_positive(p as int, j as nat);
            lemma_div_denominator(k as int, pow(p as int, j as nat), p as int);
            assert(pow(p as int, (j + 1) as nat) == p * pow(p as int, j as nat));
            assert(pow(p as int, j as nat) * p == p * pow(p as int, j as nat)) by (nonlinear_arith);
        }
        v.push(m % p);
        m = m / p;
        j = j + 1;
    }
    v.push(1);
    let r = Polynomial::from_coeffs(p, v);
    proof {
        let c = candidate(p as int, n as nat, k as int);
        lemma_candidate(p as int, n as nat, k as int);
        use_type_invariant(&r);
        assert forall|i: int| #[trigger] pc(r.s(), i) == pc(c, i) by {
            let vs = v@.map_values(|x: u32| x as int);
            assert(pc(r.s(), i) == pc(vs, i) % (p as int));
            if 0 <= i < n {
                assert(vs[i] == c[i]);
                lemma_small_mod(c[i] as nat, p as nat);
            } else if i == n {
                assert(vs[i] == 1);
                lemma_small_mod(1, p as nat);
            } else {
                assert(0int % (p as int) == 0);
            }
        }
        lemma_pc_ext(r.s(), c);
    }
    r
}

/// The monic polynomials of degree `n` over `Z_p`, each once, in the order of `candidate`.
pub struct IterPoly {
    p: u32,
    n: usize,
    k: u32,
    total: u32,
}

impl IterPoly {
    /// The base prime.
    pub closed spec fn prime(&self) -> int {
        self.p as int
    }

    /// The degree of the polynomials.
    pub closed spec fn dim(&self) -> nat {
        self.n as nat
    }

    /// The index of the next candidate.
    pub closed spec fn index(&self) -> int {
        self.k as int
    }

    /// How many candidates there are: `p^n`.
    pub closed spec fn total(&self) -> int {
        self.total as int
    }

    #[verifier::type_invariant]
    pub(crate) closed spec fn inv(self) -> bool {
        &&& self.p >= 2
        &&& self.n >= 1
        &&& self.n + 1 < u32::MAX
        &&& self.total as int == pow(self.p as int, self.n as nat)
        &&& self.k <= self.total
    }

    /// Starts the enumeration of the monic polynomials of degree `n` over `Z_p`.
    pub fn new(p: u32, n: usize) -> (r: Self)
        requires
            p >= 2,
            n >= 1,
            pow(p as int, n as nat) <= u32::MAX,
        ensures
            r.prime() == p as int,
            r.dim() == n as nat,
            r.index() == 0,
            r.total() == pow(p as int, n as nat),
    {
        proof {
            lemma_pow_ge_len(p as int, n as nat);
        }
        let total = crate::polynomial::int_pow(p, n as u32);
        IterPoly { p, n, k: 0, total }
    }

    /// The next candidate, or `None` once all `p^n` have been given.
    pub fn next(&mut self) -> (r: Option<Polynomial>)
        ensures
            final(self).prime() == old(self).prime(),
            final(self).dim() == old(self).dim(),
            final(self).total() == old(self).total(),
            old(self).index() < old(self).total() ==> {
                &&& r matches Some(c)
                &&& c.p() == old(self).prime()
                &&& c.s() == candidate(old(self).prime(), old(self).dim(), old(self).index())
                &&& final(self).index() == old(self).index() + 1
            },
            old(self).index() >= old(self).total() ==> r is None && final(self).index() == old(
                self,
            ).index(),
    {
        proof {
            use_type_invariant(&*self);
        }
        if self.k >= self.total {
            return None;
        }
        let c = build_candidate(self.p, self.n, self.k);
        self.k = self.k + 1;
        Some(c)
    }
}

/// `p^n > n` for `p >= 2`.
pub proof fn lemma_pow_ge_len(p: int, n: nat)
    requires
        p >= 2,
    ensures
        pow(p, n) >= n + 1,
        pow(p, n) >= 2 * n,
    decreases n,
{
    reveal(pow);
    if n > 0 {
        lemma_pow_ge_len(p, (n - 1) as nat);
        let x = pow(p, (n - 1) as nat);
        assert(p * x >= 2 * x) by (nonlinear_arith)
            requires
                p >= 2,
                x >= 0,
        ;
    }
}

/// The monic polynomials of degree `n` over `Z_p` that pass Rabin's irreducibility test,
/// in the order of `candidate`.
pub struct IrreducibleIter {
    inner: IterPoly,
}

impl IrreducibleIter {
    /// The underlying enumeration of candidates.
    pub closed spec fn candidates(&self) -> IterPoly {
        self.inner
    }

    /// The search runs over a prime field with candidates small enough for Rabin's test.
    pub open spec fn searchable(&self) -> bool {
        &&& spec_is_prime(self.candidates().prime())
        &&& pow(self.candidates().prime(), self.candidates().dim()) < u32::MAX - 1
    }

    /// The next irreducible candidate: the first candidate from the current index on that
    /// passes Rabin's test, or `None` when there is none left.
    pub fn next(&mut self) -> (r: Option<Polynomial>)
        requires
            old(self).searchable(),
        ensures
            final(self).searchable(),
            final(self).candidates().prime() == old(self).candidates().prime(),
            final(self).candidates().dim() == old(self).candidates().dim(),
            final(self).candidates().total() == old(self).candidates().total(),
            ({
                let it = old(self).candidates();
                let p = it.prime();
                let n = it.dim();
                &&& r matches Some(c) ==> exists|j: int|
                    it.index() <= j < it.total() && c.p() == p && c.s() == candidate(p, n, j)
                        && rabin_test(candidate(p, n, j), p) && final(self).candidates().index()
                        == j + 1 && forall|i: int|
                        it.index() <= i < j ==> !rabin_test(#[trigger] candidate(p, n, i), p)
                &&& r is None ==> final(self).candidates().index() == it.total() && forall|i: int|
                    it.index() <= i < it.total() ==> !rabin_test(#[trigger] candidate(p, n, i), p)
            }),
    {
        proof {
            use_type_invariant(&self.inner);
        }
        let ghost start = self.inner.index();
        let ghost p = self.inner.prime();
        let ghost n = self.inner.dim();
        loop
            invariant
                spec_is_prime(p),
                pow(p, n) < u32::MAX - 1,
                self.inner.prime() == p,
                self.inner.dim() == n,
                self.inner.total() == old(self).candidates().total(),
                p == old(self).candidates().prime(),
                n == old(self).candidates().dim(),
                start == old(self).candidates().index(),
                start <= self.inner.index() <= self.inner.total(),
                n >= 1,
                forall|i: int| start <= i < self.inner.index() ==> !rabin_test(#[trigger] candidate(p, n, i), p),
            decreases self.inner.total() - self.inner.index(),
        {
            proof {
                use_type_invariant(&self.inner);
            }
            let ghost j = self.inner.index();
            match self.inner.next() {
                None => {
                    return None;
                },
                Some(c) => {
                    proof {
                        lemma_candidate(p, n, j);
                    }
                    if is_irreducible(&c) {
                        return Some(c);
                    }
                },
            }
        }
    }
}

/// The irreducible monic polynomials of degree `n` over `Z_p`, by Rabin's test.
pub fn find_irreducible(p: u32, n: usize) -> (r: IrreducibleIter)
    requires
        spec_is_prime(p as int),
        n >= 1,
        pow(p as int, n as nat) < u32::MAX - 1,
    ensures
        r.searchable(),
        r.candidates().prime() == p as int,
        r.candidates().dim() == n as nat,
        r.candidates().index() == 0,
        r.candidates().total() == pow(p as int, n as nat),
{
    IrreducibleIter { inner: IterPoly::new(p, n) }
}

} // verus!
