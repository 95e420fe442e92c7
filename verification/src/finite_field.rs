//! Finite fields `GF(p^n)`, represented as the polynomials over `Z_p` modulo an
//! irreducible polynomial of degree `n`.

use vstd::arithmetic::power::*;
use vstd::prelude::*;

use crate::arith::{is_prime, lemma_trial_division, spec_is_prime, trial_division_passes};
use crate::polynomial::{
    canonical, padd, pmul, poly_rem, ppow, psub, rabin_test, is_irreducible, lemma_padd,
    lemma_pmul, lemma_psub, PolyAdd, PolyMul, PolySub, Polynomial,
};
use crate::radix::{lemma_radix_of_value, lemma_radix_seq, lemma_value_bound, radix_seq, value, digit};
use crate::utils::{candidate, find_irreducible, lemma_candidate, lemma_pow_ge_len};
use crate::decimal::{append_decimal, decimal};
use crate::poly_format::poly_text;

verus! {

/// The data that determines a finite field: the prime `p`, the degree `n`, the order
/// `p^n` and the irreducible polynomial of degree `n` that the field is built on.
#[derive(Debug, PartialEq, Eq)]
pub struct InnerGF {
    /// The prime `p`.
    p: u32,
    /// The exponent `n`.
    n: u32,
    /// The order `p^n`.
    field_size: u32,
    /// An irreducible polynomial of degree `n`.
    poly: Polynomial,
}

/// A finite field `GF(p^n)`.
#[derive(Debug, PartialEq, Eq)]
pub struct GF(InnerGF);

impl GF {
    /// The characteristic `p`.
    pub closed spec fn prime(&self) -> int {
        self.0.p as int
    }

    /// The degree `n` of the field over `Z_p`.
    pub closed spec fn dim(&self) -> nat {
        self.0.n as nat
    }

    /// The order `p^n`.
    pub closed spec fn size(&self) -> int {
        self.0.field_size as int
    }

    /// The irreducible polynomial the field is built on.
    pub closed spec fn modulus(&self) -> Seq<int> {
        self.0.poly.s()
    }

    /// Well-formedness of a field.
    pub open spec fn wf(&self) -> bool {
        &&& spec_is_prime(self.prime())
        &&& canonical(self.modulus(), self.prime())
        &&& self.modulus().len() == self.dim() + 1
        &&& self.size() == pow(self.prime(), self.dim())
        &&& self.size() < u32::MAX - 1
        &&& rabin_test(self.modulus(), self.prime())
    }

    pub(crate) closed spec fn internal(&self) -> bool {
        self.0.poly.p() == self.0.p as int
    }

    #[verifier::type_invariant]
    pub(crate) open spec fn inv(self) -> bool {
        self.wf() && self.internal()
    }
}

impl View for GF {
    type V = (int, nat, Seq<int>);

    /// A field is determined by its prime, its degree and its polynomial.
    open spec fn view(&self) -> (int, nat, Seq<int>) {
        (self.prime(), self.dim(), self.modulus())
    }
}

impl Clone for GF {
    fn clone(&self) -> (r: Self)
        ensures
            r@ == self@,
            r.size() == self.size(),
    {
        proof {
            use_type_invariant(self);
        }
        GF(
            InnerGF {
                p: self.0.p,
                n: self.0.n,
                field_size: self.0.field_size,
                poly: self.0.poly.clone(),
            },
        )
    }
}

/// `a * b` in the field with polynomial `f` over `Z_p`.
pub open spec fn fmul(a: Seq<int>, b: Seq<int>, f: Seq<int>, p: int) -> Seq<int> {
    poly_rem(pmul(a, b, p), f, p)
}

/// `a^k` in the field with polynomial `f` over `Z_p`, for `k >= 1`, multiplying one factor at a time.
pub open spec fn fpow(a: Seq<int>, k: nat, f: Seq<int>, p: int) -> Seq<int>
    decreases k,
{
    if k <= 1 {
        a
    } else {
        fmul(fpow(a, (k - 1) as nat, f, p), a, f, p)
    }
}

/// The unit of the field with polynomial `f`: the constant one reduced modulo `f`.
pub open spec fn field_one(f: Seq<int>, p: int) -> Seq<int> {
    poly_rem(seq![1int], f, p)
}

/// `a` generates the nonzero elements of a field of order `q`: its first power equal to one
/// is `a^(q - 1)`.
pub open spec fn is_primitive_elem(a: Seq<int>, f: Seq<int>, p: int, q: int) -> bool {
    &&& a.len() > 0
    &&& forall|k: int| 1 <= k < q - 1 ==> #[trigger] fpow(a, k as nat, f, p) != field_one(f, p)
    &&& fpow(a, (q - 1) as nat, f, p) == field_one(f, p)
}

/// An element of a finite field, which carries its field.
#[derive(Debug, PartialEq, Eq)]
pub struct FieldElement {
    /// The polynomial of degree below `n` that represents the element.
    poly: Polynomial,
    /// The field the element belongs to.
    field: GF,
}

impl FieldElement {
    /// The coefficients of the representing polynomial.
    pub closed spec fn s(&self) -> Seq<int> {
        self.poly.s()
    }

    /// The field of the element.
    pub closed spec fn gf(&self) -> GF {
        self.field
    }

    /// Well-formedness: a canonical polynomial of degree below `n`.
    pub open spec fn wf(&self) -> bool {
        &&& canonical(self.s(), self.gf().prime())
        &&& self.s().len() <= self.gf().dim()
    }

    pub(crate) closed spec fn internal(&self) -> bool {
        self.poly.p() == self.field.0.p as int
    }

    #[verifier::type_invariant]
    pub(crate) open spec fn inv(self) -> bool {
        self.wf() && self.internal()
    }
}

impl View for FieldElement {
    type V = ((int, nat, Seq<int>), Seq<int>);

    open spec fn view(&self) -> ((int, nat, Seq<int>), Seq<int>) {
        (self.gf()@, self.s())
    }
}

impl Clone for FieldElement {
    fn clone(&self) -> (r: Self)
        ensures
            r@ == self@,
            r.gf().size() == self.gf().size(),
    {
        proof {
            use_type_invariant(self);
        }
        FieldElement { poly: self.poly.clone(), field: self.field.clone() }
    }
}

/// The remainder of a polynomial shorter than the divisor is the polynomial itself.
pub proof fn lemma_rem_short(a: Seq<int>, f: Seq<int>, p: int)
    requires
        a.len() < f.len(),
    ensures
        poly_rem(a, f, p) == a,
{
}

/// For `p >= 2`, `p^n >= 2n`: the degree of a field is small against its order.
proof fn lemma_dim_small(gf: GF)
    requires
        gf.wf(),
    ensures
        2 * gf.dim() <= gf.size(),
{
    lemma_pow_ge_len(gf.prime(), gf.dim());
}

impl FieldElement {
    /// The element of `field` represented by `poly` reduced modulo the field's polynomial.
    pub fn from_poly(poly: Polynomial, field: GF) -> (r: Self)
        requires
            poly.p() == field.prime(),
        ensures
            r.gf()@ == field@,
            r.gf().size() == field.size(),
            r.s() == poly_rem(poly.s(), field.modulus(), field.prime()),
    {
        proof {
            use_type_invariant(&field);
            use_type_invariant(&poly);
        }
        let (_, rem) = poly.divmod(&field.0.poly).unwrap();
        FieldElement { poly: rem, field }
    }

    /// The field of the element.
    pub fn field(&self) -> (r: &GF)
        ensures
            r@ == self.gf()@,
            r.size() == self.gf().size(),
    {
        &self.field
    }

    /// `self - other`.
    pub fn sub(&self, other: &Self) -> (r: Self)
        requires
            self.gf()@ == other.gf()@,
        ensures
            r.gf()@ == self.gf()@,
            r.gf().size() == self.gf().size(),
            r.s() == poly_rem(psub(self.s(), other.s(), self.gf().prime()), self.gf().modulus(), self.gf().prime()),
    {
        proof {
            use_type_invariant(self);
            use_type_invariant(other);
            use_type_invariant(&self.field);
        }
        let d = (&self.poly).sub(&other.poly).unwrap();
        FieldElement::from_poly(d, self.field.clone())
    }

    /// `self + other`.
    pub fn add(&self, other: &Self) -> (r: Self)
        requires
            self.gf()@ == other.gf()@,
        ensures
            r.gf()@ == self.gf()@,
            r.gf().size() == self.gf().size(),
            r.s() == poly_rem(padd(self.s(), other.s(), self.gf().prime()), self.gf().modulus(), self.gf().prime()),
    {
        proof {
            use_type_invariant(self);
            use_type_invariant(other);
            use_type_invariant(&self.field);
        }
        let d = (&self.poly).add(&other.poly).unwrap();
        FieldElement::from_poly(d, self.field.clone())
    }

    /// `self += other`; the sum of two elements needs no reduction.
    pub fn add_assign(&mut self, other: &Self)
        requires
            old(self).gf()@ == other.gf()@,
        ensures
            final(self).gf()@ == old(self).gf()@,
            final(self).gf().size() == old(self).gf().size(),
            final(self).s() == padd(old(self).s(), other.s(), old(self).gf().prime()),
    {
        proof {
            use_type_invariant(&*self);
            use_type_invariant(other);
            use_type_invariant(&self.field);
            lemma_padd(self.s(), other.s(), self.gf().prime());
        }
        let d = (&self.poly).add(&other.poly).unwrap();
        proof {
            use_type_invariant(&d);
        }
        self.poly = d;
    }

    /// `self * other`.
    pub fn mul(&self, other: &Self) -> (r: Self)
        requires
            self.gf()@ == other.gf()@,
        ensures
            r.gf()@ == self.gf()@,
            r.gf().size() == self.gf().size(),
            r.s() == fmul(self.s(), other.s(), self.gf().modulus(), self.gf().prime()),
    {
        proof {
            use_type_invariant(self);
            use_type_invariant(other);
            use_type_invariant(&self.field);
            lemma_dim_small(self.field);
        }
        let d = (&self.poly).mul(&other.poly).unwrap();
        FieldElement::from_poly(d, self.field.clone())
    }

    /// `self^n` for `n >= 1`: the polynomial power reduced modulo the field's polynomial.
    pub fn pow(&self, n: u32) -> (r: Self)
        requires
            n >= 1,
            (n as int) * self.s().len() <= u32::MAX,
        ensures
            r.gf()@ == self.gf()@,
            r.gf().size() == self.gf().size(),
            r.s() == poly_rem(ppow(self.s(), n as nat, self.gf().prime()), self.gf().modulus(), self.gf().prime()),
    {
        proof {
            use_type_invariant(self);
        }
        let q = self.poly.pow(n);
        FieldElement::from_poly(q, self.field.clone())
    }

    /// Whether two elements are equal: same field and same value.
    pub fn equals(&self, other: &Self) -> (r: bool)
        ensures
            r == (self@ == other@),
    {
        proof {
            use_type_invariant(self);
            use_type_invariant(other);
            use_type_invariant(&self.field);
            use_type_invariant(&other.field);
        }
        self.field.0.p == other.field.0.p && self.field.0.n == other.field.0.n
            && self.field.0.poly.equals(&other.field.0.poly) && self.poly.equals(&other.poly)
    }

    /// The number of coefficients of the representing polynomial.
    pub fn coefficient_count(&self) -> (r: usize)
        ensures
            r == self.s().len(),
    {
        proof {
            use_type_invariant(self);
            use_type_invariant(&self.poly);
        }
        if self.poly.is_zero() {
            0
        } else {
            self.poly.degree() as usize + 1
        }
    }

    /// A primitive element generates all the nonzero elements by successive multiplication:
    /// the first of its powers `x, x^2, ...` equal to one is `x^(q - 1)`.
    pub fn is_primitive(&self) -> (r: bool)
        ensures
            r == is_primitive_elem(self.s(), self.gf().modulus(), self.gf().prime(), self.gf().size()),
    {
        proof {
            use_type_invariant(self);
            use_type_invariant(&self.field);
        }
        let zero = self.field.zero();
        if self.equals(&zero) {
            return false;
        }
        let one = self.field.one();
        let q = self.field.field_size();
        proof {
            assert(self.s().len() > 0) by {
                if self.s().len() == 0 {
                    assert(self@ == zero@);
                }
            }
            lemma_pow_ge_len(self.gf().prime(), self.gf().dim());
        }
        let ghost f = self.gf().modulus();
        let ghost p = self.gf().prime();
        let mut cur = self.clone();
        let mut count: u32 = 0;
        while count + 1 < q && !cur.equals(&one)
            invariant
                q as int == self.gf().size(),
                q >= 2,
                count + 1 <= q,
                cur.gf()@ == self.gf()@,
                one.gf()@ == self.gf()@,
                one.s() == field_one(f, p),
                f == self.gf().modulus(),
                p == self.gf().prime(),
                cur.s() == fpow(self.s(), (count + 1) as nat, f, p),
                forall|k: int| 1 <= k <= count ==> #[trigger] fpow(self.s(), k as nat, f, p) != field_one(f, p),
            decreases q - count,
        {
            cur = cur.mul(self);
            count = count + 1;
        }
        let hit = cur.equals(&one);
        proof {
            let a = self.s();
            let qq = q as int;
            if hit {
                assert(fpow(a, (count + 1) as nat, f, p) == field_one(f, p));
                if count + 1 == q {
                    let k = (qq - 1) as int;
                    assert(fpow(a, k as nat, f, p) != field_one(f, p));
                    assert(!is_primitive_elem(a, f, p, qq));
                } else if count + 2 != q {
                    let k = (count + 1) as int;
                    assert(1 <= k < qq - 1);
                    assert(fpow(a, k as nat, f, p) == field_one(f, p));
                    assert(!is_primitive_elem(a, f, p, qq));
                } else {
                    assert forall|k: int| 1 <= k < qq - 1 implies #[trigger] fpow(a, k as nat, f, p)
                        != field_one(f, p) by {}
                    assert(is_primitive_elem(a, f, p, qq));
                }
            } else {
                assert(count + 1 == q);
                let k = (qq - 1) as int;
                assert(fpow(a, k as nat, f, p) != field_one(f, p));
                assert(!is_primitive_elem(a, f, p, qq));
            }
        }
        hit && count + 2 == q
    }

    /// The integer `sum_k c_k p^k` of the coefficients: the index of the element in
    /// `GF::element`.
    pub fn as_int(&self) -> (r: u32)
        ensures
            r as int == value(self.s(), self.gf().prime()),
            (r as int) < self.gf().size(),
    {
        proof {
            use_type_invariant(self);
            use_type_invariant(&self.field);
            use_type_invariant(&self.poly);
        }
        let p = self.field.0.p;
        let ghost s = self.s();
        let ghost pp = p as int;
        let len: usize = self.poly.degree() as usize + if self.poly.is_zero() { 0 } else { 1 };
        proof {
            lemma_value_bound(s, pp);
            lemma_pow_increases(pp as nat, s.len(), self.gf().dim());
        }
        let mut acc: u64 = 0;
        let mut k: usize = len;
        while k > 0
            invariant
                len == s.len(),
                k <= len,
                pp >= 2,
                s == self.s(),
                pp == self.gf().prime(),
                canonical(s, pp),
                pow(pp, len as nat) <= self.gf().size(),
                self.gf().size() < u32::MAX,
                acc as int == value(s.subrange(k as int, len as int), pp),
                p as int == pp,
            decreases k,
        {
            let c = self.poly.coeff(k - 1);
            proof {
                let t = s.subrange(k - 1, len as int);
                assert(t.subrange(1, t.len() as int) =~= s.subrange(k as int, len as int));
                assert(t[0] == s[k - 1]);
                assert(canonical(t, pp) || true);
                assert forall|i: int| 0 <= i < t.len() implies 0 <= #[trigger] t[i] < pp by {
                    assert(t[i] == s[k - 1 + i]);
                }
                lemma_value_bound(t, pp);
                lemma_pow_increases(pp as nat, t.len(), len as nat);
                assert(value(t, pp) == t[0] + pp * value(s.subrange(k as int, len as int), pp));
                assert((acc as int) * (p as int) == pp * (acc as int)) by (nonlinear_arith)
                    requires
                        pp == p as int,
                ;
                assert(c as int == t[0]);
            }
            acc = acc * (p as u64) + c as u64;
            k = k - 1;
        }
        proof {
            assert(s.subrange(0, len as int) =~= s);
        }
        acc as u32
    }
}

/// The reason why a polynomial does not define a finite field.
#[derive(Debug)]
pub enum FieldError {
    /// The base of the polynomial's coefficients is not a prime.
    NotPrime(u32),
    /// The polynomial is reducible over `Z_p`.
    ReduciblePolynomial(Polynomial),
}

/// The text of a field error.
pub open spec fn field_error_text(e: FieldError) -> Seq<char> {
    match e {
        FieldError::NotPrime(n) => decimal(n as nat) + " is not prime"@,
        FieldError::ReduciblePolynomial(poly) => poly_text(poly.s()) + " is reducible over Z_"@ + decimal(
            poly.p() as nat,
        ),
    }
}

impl FieldError {
    /// The text of the error.
    pub fn describe(&self) -> (r: String)
        ensures
            r@ == field_error_text(*self),
    {
        let mut out = String::new();
        match self {
            FieldError::NotPrime(n) => {
                append_decimal(&mut out, *n as usize);
                out.append(" is not prime");
                proof {
                    assert(out@ =~= field_error_text(*self));
                }
            },
            FieldError::ReduciblePolynomial(poly) => {
                let t = poly.to_string();
                out.append(t.as_str());
                out.append(" is reducible over Z_");
                append_decimal(&mut out, poly.base_prime() as usize);
                proof {
                    assert(out@ =~= field_error_text(*self));
                }
            },
        }
        out
    }
}

impl GF {
    /// The field `GF(p^n)` built on `poly`, of degree `n` over `Z_p`. Fails with `NotPrime`
    /// when `p` is not prime and with `ReduciblePolynomial` when `poly` fails Rabin's test.
    pub fn from_poly(poly: Polynomial) -> (r: Result<Self, FieldError>)
        requires
            poly.s().len() > 0,
            spec_is_prime(poly.p()) ==> pow(poly.p(), (poly.s().len() - 1) as nat) < u32::MAX - 1,
        ensures
            !spec_is_prime(poly.p()) ==> (r matches Err(FieldError::NotPrime(x)) && x as int == poly.p()),
            spec_is_prime(poly.p()) && !rabin_test(poly.s(), poly.p()) ==> (r matches Err(
                FieldError::ReduciblePolynomial(g),
            ) && g.p() == poly.p() && g.s() == poly.s()),
            spec_is_prime(poly.p()) && rabin_test(poly.s(), poly.p()) ==> (r matches Ok(gf) && gf@ == (
                poly.p(),
                (poly.s().len() - 1) as nat,
                poly.s(),
            ) && gf.size() == pow(poly.p(), (poly.s().len() - 1) as nat)),
    {
        proof {
            use_type_invariant(&poly);
        }
        let p = poly.base_prime();
        let prime = is_prime(p);
        proof {
            if p >= 2 {
                lemma_trial_division(p as int);
            }
        }
        if !prime {
            return Err(FieldError::NotPrime(p));
        }
        if !is_irreducible(&poly) {
            return Err(FieldError::ReduciblePolynomial(poly));
        }
        let n = poly.degree();
        let field_size = crate::polynomial::int_pow(p, n);
        Ok(GF(InnerGF { p, n, field_size, poly }))
    }

    /// A field of order `p^n`, built on the first irreducible candidate (see
    /// `utils::candidate`), or `None` when no candidate passes Rabin's test.
    pub fn with_size(p: u32, n: u32) -> (r: Option<Self>)
        requires
            spec_is_prime(p as int),
            n >= 1,
            pow(p as int, n as nat) < u32::MAX - 1,
        ensures
            r matches Some(gf) ==> exists|j: int|
                0 <= j < pow(p as int, n as nat) && gf@ == (p as int, n as nat, candidate(p as int, n as nat, j))
                    && rabin_test(candidate(p as int, n as nat, j), p as int) && forall|i: int|
                    0 <= i < j ==> !rabin_test(#[trigger] candidate(p as int, n as nat, i), p as int),
            r is None ==> forall|i: int|
                0 <= i < pow(p as int, n as nat) ==> !rabin_test(#[trigger] candidate(p as int, n as nat, i), p as int),
    {
        let mut it = find_irreducible(p, n as usize);
        match it.next() {
            None => None,
            Some(poly) => {
                proof {
                    let j = choose|j: int|
                        0 <= j < pow(p as int, n as nat) && poly.p() == p as int && poly.s() == candidate(
                            p as int,
                            n as nat,
                            j,
                        ) && rabin_test(candidate(p as int, n as nat, j), p as int);
                    lemma_candidate(p as int, n as nat, j);
                }
                match GF::from_poly(poly) {
                    Ok(gf) => Some(gf),
                    Err(_) => None,
                }
            },
        }
    }

    /// The text of the field: `GF(p^n)` and its polynomial.
    pub fn describe(&self) -> (r: String)
        ensures
            r@ == "GF("@ + decimal(self.prime() as nat) + "^"@ + decimal(self.dim()) + ")/["@ + poly_text(self.modulus())
                + "]"@,
    {
        let mut out = String::new();
        out.append("GF(");
        append_decimal(&mut out, self.0.p as usize);
        out.append("^");
        append_decimal(&mut out, self.0.n as usize);
        out.append(")/[");
        let t = self.0.poly.to_string();
        out.append(t.as_str());
        out.append("]");
        proof {
            assert(out@ =~= "GF("@ + decimal(self.prime() as nat) + "^"@ + decimal(self.dim()) + ")/["@ + poly_text(
                self.modulus(),
            ) + "]"@);
        }
        out
    }

    /// The primitive elements of the field, in the order of `element`.
    pub fn iter_primitive(&self) -> (r: PrimitiveElements)
        ensures
            r.field()@ == self@,
            r.field().size() == self.size(),
            r.index() == 1,
    {
        PrimitiveElements { field: self.clone(), k: 1 }
    }

    /// The order `p^n` of the field.
    pub fn field_size(&self) -> (r: u32)
        ensures
            r as int == self.size(),
    {
        self.0.field_size
    }

    /// The zero of the field.
    pub fn zero(&self) -> (r: FieldElement)
        ensures
            r.gf()@ == self@,
            r.gf().size() == self.size(),
            r.s() == Seq::<int>::empty(),
    {
        proof {
            use_type_invariant(self);
        }
        FieldElement { poly: Polynomial::zero(self.0.p), field: self.clone() }
    }

    /// The unit of the field: the constant one reduced modulo the field's polynomial,
    /// which is the constant one whenever `n >= 1`.
    pub fn one(&self) -> (r: FieldElement)
        ensures
            r.gf()@ == self@,
            r.gf().size() == self.size(),
            r.s() == field_one(self.modulus(), self.prime()),
            self.dim() >= 1 ==> r.s() == seq![1int],
    {
        proof {
            use_type_invariant(self);
        }
        let mut c: Vec<u32> = Vec::new();
        c.push(1);
        let unit = Polynomial::from_coeffs(self.0.p, c);
        proof {
            use_type_invariant(&unit);
            assert(unit.s() =~= seq![1int]) by {
                vstd::arithmetic::div_mod::lemma_small_mod(1, self.prime() as nat);
                assert(crate::polynomial::pc(unit.s(), 0) == 1);
                if unit.s().len() > 1 {
                    assert(0int % self.prime() == 0);
                    assert(crate::polynomial::pc(unit.s(), unit.s().len() - 1) == 0);
                }
            }
        }
        FieldElement::from_poly(unit, self.clone())
    }

    /// The element whose index is `k mod p^n`: its coefficients are the `n` lowest
    /// base-`p` digits of that number, so that `as_int` gives the index back.
    pub fn element(&self, k: u32) -> (r: FieldElement)
        ensures
            r.gf()@ == self@,
            r.gf().size() == self.size(),
            r.s() == radix_seq((k as int) % self.size(), self.prime(), self.dim()),
            value(r.s(), self.prime()) == (k as int) % self.size(),
    {
        proof {
            use_type_invariant(self);
            lemma_dim_small(*self);
        }
        let p = self.0.p;
        let n = self.0.n;
        let q = self.0.field_size;
        proof {
            lemma_pow_positive(p as int, n as nat);
        }
        let m0 = k % q;
        let mut v: Vec<u32> = Vec::new();
        let mut m: u32 = m0;
        let mut j: u32 = 0;
        proof {
            reveal(pow);
            assert((m0 as int) / 1 == m0 as int);
        }
        while j < n
            invariant
                p >= 2,
                j <= n,
                v.len() == j,
                m as int == (m0 as int) / pow(p as int, j as nat),
                forall|i: int| 0 <= i < j ==> #[trigger] v@[i] as int == digit(m0 as int, i, p as int),
            decreases n - j,
        {
            proof {
                reveal(pow);
                lemma_pow_positive(p as int, j as nat);
                vstd::arithmetic::div_mod::lemma_div_denominator(m0 as int, pow(p as int, j as nat), p as int);
                assert(pow(p as int, j as nat) * p == p * pow(p as int, j as nat)) by (nonlinear_arith);
            }
            v.push(m % p);
            m = m / p;
            j = j + 1;
        }
        let poly = Polynomial::from_coeffs(p, v);
        proof {
            use_type_invariant(&poly);
            let d = radix_seq(m0 as int, p as int, n as nat);
            lemma_radix_seq(m0 as int, p as int, n as nat);
            assert forall|i: int| #[trigger] crate::polynomial::pc(poly.s(), i) == crate::polynomial::pc(d, i) by {
                let vs = v@.map_values(|x: u32| x as int);
                assert(crate::polynomial::pc(poly.s(), i) == crate::polynomial::pc(vs, i) % (p as int));
                if 0 <= i < n {
                    lemma_pow_positive(p as int, i as nat);
                    vstd::arithmetic::div_mod::lemma_div_pos_is_pos(m0 as int, pow(p as int, i as nat));
                    vstd::arithmetic::div_mod::lemma_mod_bound((m0 as int) / pow(p as int, i as nat), p as int);
                    vstd::arithmetic::div_mod::lemma_small_mod(vs[i] as nat, p as nat);
                } else {
                    assert(0int % (p as int) == 0);
                }
            }
            crate::polynomial::lemma_pc_ext(poly.s(), d);
            lemma_rem_short(d, self.modulus(), p as int);
            vstd::arithmetic::div_mod::lemma_small_mod(m0 as nat, q as nat);
        }
        FieldElement::from_poly(poly, self.clone())
    }
}

/// The element of index `k` is primitive.
pub open spec fn primitive_index(gf: GF, k: int) -> bool {
    is_primitive_elem(radix_seq(k, gf.prime(), gf.dim()), gf.modulus(), gf.prime(), gf.size())
}

/// The primitive elements of a field, found by trying `element(1)`, `element(2)`, ... in turn.
pub struct PrimitiveElements {
    field: GF,
    k: u32,
}

impl PrimitiveElements {
    /// The field whose elements are searched.
    pub closed spec fn field(&self) -> GF {
        self.field
    }

    /// The index of the next element to try.
    pub closed spec fn index(&self) -> int {
        self.k as int
    }

    /// The next primitive element from the current index on, or `None` when none is left
    /// below the order of the field.
    pub fn next(&mut self) -> (r: Option<FieldElement>)
        ensures
            final(self).field()@ == old(self).field()@,
            final(self).field().size() == old(self).field().size(),
            ({
                let gf = old(self).field();
                &&& r matches Some(e) ==> exists|j: int|
                    old(self).index() <= j < gf.size() && e.gf()@ == gf@ && e.s() == radix_seq(
                        j,
                        gf.prime(),
                        gf.dim(),
                    ) && #[trigger] primitive_index(gf, j) && final(self).index() == j + 1
                        && forall|i: int| old(self).index() <= i < j ==> !#[trigger] primitive_index(gf, i)
                &&& r is None ==> forall|i: int|
                    old(self).index() <= i < gf.size() ==> !#[trigger] primitive_index(gf, i)
            }),
    {
        proof {
            use_type_invariant(&self.field);
        }
        let q = self.field.field_size();
        let ghost start = self.k as int;
        let ghost gf = self.field;
        while self.k < q
            invariant
                q as int == gf.size(),
                self.field == gf,
                gf.wf(),
                start <= self.k,
                start == old(self).index(),
                gf == old(self).field(),
                forall|i: int| start <= i < self.k ==> !#[trigger] primitive_index(gf, i),
            decreases q - self.k,
        {
            let ghost j = self.k as int;
            let e = self.field.element(self.k);
            proof {
                vstd::arithmetic::div_mod::lemma_small_mod(self.k as nat, q as nat);
            }
            self.k = self.k + 1;
            let prim = e.is_primitive();
            proof {
                assert(e.s() == radix_seq(j, gf.prime(), gf.dim()));
                assert(prim == primitive_index(gf, j));
            }
            if prim {
                return Some(e);
            }
        }
        None
    }
}

/// Every element is the element whose index is its integer: `element(e.as_int()) == e`.
pub proof fn law_element_of_as_int(e: FieldElement)
    requires
        e.wf(),
        e.gf().wf(),
    ensures
        value(e.s(), e.gf().prime()) < e.gf().size(),
        radix_seq(value(e.s(), e.gf().prime()) % e.gf().size(), e.gf().prime(), e.gf().dim()) == e.s(),
{
    let gf = e.gf();
    lemma_radix_of_value(e.s(), gf.prime(), gf.dim());
    vstd::arithmetic::div_mod::lemma_small_mod(value(e.s(), gf.prime()) as nat, gf.size() as nat);
}

/// The index of `element(k)` is `k mod p^n`.
pub proof fn law_as_int_of_element(gf: GF, k: int)
    requires
        gf.wf(),
        k >= 0,
    ensures
        value(radix_seq(k % gf.size(), gf.prime(), gf.dim()), gf.prime()) == k % gf.size(),
{
    reveal(pow);
    lemma_pow_positive(gf.prime(), gf.dim());
    vstd::arithmetic::div_mod::lemma_mod_bound(k, gf.size());
    lemma_radix_seq(k % gf.size(), gf.prime(), gf.dim());
    vstd::arithmetic::div_mod::lemma_small_mod((k % gf.size()) as nat, gf.size() as nat);
}

} // verus!
