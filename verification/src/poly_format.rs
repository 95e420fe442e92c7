//! Human-readable text of a polynomial, such as `2 + x + 5x^2 + x^4`.

use vstd::prelude::*;

use crate::decimal::{append_decimal, decimal, lemma_decimal_nonempty};
use crate::polynomial::{pc, Polynomial};

verus! {

/// The text of the term `coeff * x^power`: the bare coefficient for `power == 0`,
/// `x` or `x^power` when the coefficient is one, else the coefficient in front.
pub open spec fn term_text(power: nat, coeff: nat) -> Seq<char> {
    if power == 0 {
        decimal(coeff)
    } else if power == 1 {
        if coeff == 1 {
            seq!['x']
        } else {
            decimal(coeff).push('x')
        }
    } else if coeff == 1 {
        seq!['x', '^'] + decimal(power)
    } else {
        decimal(coeff) + seq!['x', '^'] + decimal(power)
    }
}

/// The nonzero terms among the first `k` coefficients, lowest power first, joined by ` + `.
pub open spec fn terms_text(s: Seq<int>, k: nat) -> Seq<char>
    decreases k,
{
    if k == 0 {
        Seq::empty()
    } else {
        let prev = terms_text(s, (k - 1) as nat);
        let c = pc(s, k - 1);
        if c == 0 {
            prev
        } else if prev.len() == 0 {
            term_text((k - 1) as nat, c as nat)
        } else {
            prev + seq![' ', '+', ' '] + term_text((k - 1) as nat, c as nat)
        }
    }
}

/// The text of a polynomial: `0` for the zero polynomial, else its nonzero terms
/// from the lowest power up, joined by ` + `.
pub open spec fn poly_text(s: Seq<int>) -> Seq<char> {
    if s.len() == 0 {
        seq!['0']
    } else {
        terms_text(s, s.len())
    }
}

fn append_term(out: &mut String, power: u32, coeff: u32)
    ensures
        final(out)@ == old(out)@ + term_text(power as nat, coeff as nat),
{
    proof {
        reveal_strlit("x");
        reveal_strlit("x^");
    }
    let ghost before = out@;
    if power == 0 {
        append_decimal(out, coeff as usize);
    } else if power == 1 {
        if coeff == 1 {
            out.append("x");
        } else {
            append_decimal(out, coeff as usize);
            out.append("x");
        }
    } else if coeff == 1 {
        out.append("x^");
        append_decimal(out, power as usize);
    } else {
        append_decimal(out, coeff as usize);
        out.append("x^");
        append_decimal(out, power as usize);
    }
    assert(out@ =~= before + term_text(power as nat, coeff as nat));
}

proof fn lemma_term_nonempty(power: nat, coeff: nat)
    ensures
        term_text(power, coeff).len() > 0,
{
    lemma_decimal_nonempty(coeff);
    lemma_decimal_nonempty(power);
}

impl Polynomial {
    /// The text of the polynomial, for example `2 + x + 5x^2 + x^4`.
    pub fn to_string(&self) -> (r: String)
        ensures
            r@ == poly_text(self.s()),
    {
        proof {
            reveal_strlit("0");
            reveal_strlit(" + ");
        }
        let mut out = String::new();
        if self.is_zero() {
            out.append("0");
            assert(out@ =~= poly_text(self.s()));
            return out;
        }
        proof {
            use_type_invariant(self);
        }
        let len: usize = self.degree() as usize + 1;
        let mut k: usize = 0;
        let mut started = false;
        while k < len
            invariant
                0 <= k <= len,
                len == self.s().len(),
                len < u32::MAX,
                out@ == terms_text(self.s(), k as nat),
                started == (out@.len() > 0),
            decreases len - k,
        {
            let c = self.coeff(k);
            let ghost prev = out@;
            if c != 0 {
                if started {
                    out.append(" + ");
                }
                proof {
                    if prev.len() > 0 {
                        reveal_strlit(" + ");
                        assert(" + "@ =~= seq![' ', '+', ' ']);
                        assert(prev + seq![' ', '+', ' '] =~= out@);
                    }
                }
                append_term(&mut out, k as u32, c);
                proof {
                    lemma_term_nonempty(k as nat, c as nat);
                }
                started = true;
            }
            proof {
                assert(terms_text(self.s(), (k + 1) as nat) == out@);
            }
            k = k + 1;
        }
        out
    }
}

} // verus!
