//! Base-`p` representation of integers as coefficient sequences: the bijection
//! between the polynomials of degree below `n` over `Z_p` and the integers below `p^n`.

use vstd::arithmetic::div_mod::*;
use vstd::arithmetic::mul::*;
use vstd::arithmetic::power::*;
use vstd::prelude::*;

use crate::polynomial::{canonical, is_trimmed, lemma_pc_ext, pc, reduced, trim};

verus! {

/// The integer `sum_k s[k] * p^k`, evaluated by Horner's rule.
pub open spec fn value(s: Seq<int>, p: int) -> int
    decreases s.len(),
{
    if s.len() == 0 {
        0
    } else {
        s[0] + p * value(s.subrange(1, s.len() as int), p)
    }
}

/// The base-`p` digit of `k` at position `j`.
pub open spec fn digit(k: int, j: int, p: int) -> int {
    (k / pow(p, j as nat)) % p
}

/// The `n` lowest base-`p` digits of `k`, least significant first.
pub open spec fn digits(k: int, p: int, n: nat) -> Seq<int> {
    Seq::new(n, |j: int| digit(k, j, p))
}

proof fn lemma_digit_shift(k: int, j: int, p: int)
    requires
        k >= 0,
        j >= 0,
        p > 0,
    ensures
        digit(k, j + 1, p) == digit(k / p, j, p),
{
    reveal(pow);
    lemma_pow_positive(p, j as nat);
    assert(pow(p, (j + 1) as nat) == p * pow(p, j as nat));
    lemma_div_denominator(k, p, pow(p, j as nat));
}

/// Coefficients that agree everywhere give the same value.
pub proof fn lemma_value_pc(s: Seq<int>, t: Seq<int>, p: int)
    requires
        forall|j: int| #[trigger] pc(s, j) == pc(t, j),
    ensures
        value(s, p) == value(t, p),
    decreases s.len() + t.len(),
{
    if s.len() == 0 && t.len() == 0 {
    } else {
        let s1 = if s.len() == 0 { s } else { s.subrange(1, s.len() as int) };
        let t1 = if t.len() == 0 { t } else { t.subrange(1, t.len() as int) };
        assert forall|j: int| #[trigger] pc(s1, j) == pc(t1, j) by {
            if j >= 0 {
                assert(pc(s, j + 1) == pc(t, j + 1));
                if s.len() > 0 {
                    assert(pc(s1, j) == pc(s, j + 1));
                } else {
                    assert(pc(s, j + 1) == 0);
                }
                if t.len() > 0 {
                    assert(pc(t1, j) == pc(t, j + 1));
                } else {
                    assert(pc(t, j + 1) == 0);
                }
            }
        }
        lemma_value_pc(s1, t1, p);
        assert(pc(s, 0) == pc(t, 0));
        if s.len() == 0 {
            assert(value(s1, p) == 0);
            assert(t[0] == 0);
            assert(value(t, p) == 0 + p * value(t1, p));
            assert(p * 0 == 0);
        } else if t.len() == 0 {
            assert(s[0] == 0);
            assert(p * 0 == 0);
        }
    }
}

/// The value of the `n` lowest digits of `k` is `k mod p^n`.
pub proof fn lemma_value_digits(k: int, p: int, n: nat)
    requires
        k >= 0,
        p > 0,
    ensures
        value(digits(k, p, n), p) == k % pow(p, n),
    decreases n,
{
    reveal(pow);
    if n == 0 {
        assert(pow(p, 0) == 1);
        assert(k % 1 == 0);
    } else {
        let d = digits(k, p, n);
        let tail = d.subrange(1, n as int);
        lemma_div_pos_is_pos(k, p);
        assert forall|j: int| 0 <= j < n - 1 implies #[trigger] tail[j] == digits(k / p, p, (n - 1) as nat)[j] by {
            lemma_digit_shift(k, j, p);
        }
        assert(tail =~= digits(k / p, p, (n - 1) as nat));
        lemma_value_digits(k / p, p, (n - 1) as nat);
        assert(d[0] == k % p) by {
            assert(pow(p, 0) == 1);
        }
        lemma_pow_positive(p, (n - 1) as nat);
        lemma_mod_breakdown(k, p, pow(p, (n - 1) as nat));
        assert(pow(p, n) == p * pow(p, (n - 1) as nat));
    }
}

/// A reduced sequence has value below `p^len`.
pub proof fn lemma_value_bound(s: Seq<int>, p: int)
    requires
        p > 0,
        reduced(s, p),
    ensures
        0 <= value(s, p) < pow(p, s.len()),
    decreases s.len(),
{
    reveal(pow);
    if s.len() > 0 {
        let t = s.subrange(1, s.len() as int);
        assert(reduced(t, p)) by {
            assert forall|i: int| 0 <= i < t.len() implies 0 <= #[trigger] t[i] < p by {
                assert(t[i] == s[i + 1]);
            }
        }
        lemma_value_bound(t, p);
        let v = value(t, p);
        let m = pow(p, t.len());
        assert(0 <= s[0] < p);
        assert(p * v + s[0] < p * m) by (nonlinear_arith)
            requires
                0 <= s[0] < p,
                0 <= v < m,
                p > 0,
        ;
        assert(p * v >= 0) by (nonlinear_arith)
            requires
                v >= 0,
                p > 0,
        ;
        assert(pow(p, s.len()) == p * m);
    }
}

/// The digits of the value of a reduced sequence are its coefficients.
pub proof fn lemma_digits_value(s: Seq<int>, p: int, j: int)
    requires
        p > 0,
        reduced(s, p),
        j >= 0,
    ensures
        digit(value(s, p), j, p) == pc(s, j),
    decreases s.len(),
{
    reveal(pow);
    lemma_value_bound(s, p);
    if s.len() == 0 {
        lemma_pow_positive(p, j as nat);
        assert(0int / pow(p, j as nat) == 0);
        assert(0int % p == 0);
    } else {
        let t = s.subrange(1, s.len() as int);
        assert(reduced(t, p)) by {
            assert forall|i: int| 0 <= i < t.len() implies 0 <= #[trigger] t[i] < p by {
                assert(t[i] == s[i + 1]);
            }
        }
        lemma_value_bound(t, p);
        let v = value(t, p);
        let x = value(s, p);
        assert(x == p * v + s[0]);
        lemma_div_multiples_vanish_fancy(v, s[0], p);
        lemma_mod_multiples_vanish(v, s[0], p);
        lemma_small_mod(s[0] as nat, p as nat);
        if j == 0 {
            assert(pow(p, 0) == 1);
        } else {
            lemma_digit_shift(x, j - 1, p);
            lemma_digits_value(t, p, j - 1);
            assert(pc(t, j - 1) == pc(s, j));
        }
    }
}

/// The canonical form of the `n` lowest digits of `k`.
pub open spec fn radix_seq(k: int, p: int, n: nat) -> Seq<int> {
    trim(digits(k, p, n))
}

proof fn lemma_trim_pc(a: Seq<int>)
    ensures
        is_trimmed(trim(a)),
        trim(a).len() <= a.len(),
        forall|j: int| #[trigger] pc(trim(a), j) == pc(a, j),
    decreases a.len(),
{
    if a.len() > 0 && a.last() == 0 {
        lemma_trim_pc(a.drop_last());
        assert forall|j: int| #[trigger] pc(trim(a), j) == pc(a, j) by {
            assert(pc(trim(a.drop_last()), j) == pc(a.drop_last(), j));
        }
    }
}

/// `radix_seq(k, p, n)` is a canonical sequence of at most `n` coefficients whose value
/// is `k mod p^n`.
pub proof fn lemma_radix_seq(k: int, p: int, n: nat)
    requires
        k >= 0,
        p > 0,
    ensures
        canonical(radix_seq(k, p, n), p),
        radix_seq(k, p, n).len() <= n,
        value(radix_seq(k, p, n), p) == k % pow(p, n),
        forall|j: int| 0 <= j < n ==> #[trigger] pc(radix_seq(k, p, n), j) == digit(k, j, p),
{
    let d = digits(k, p, n);
    lemma_trim_pc(d);
    lemma_value_pc(trim(d), d, p);
    lemma_value_digits(k, p, n);
    let r = trim(d);
    assert forall|i: int| 0 <= i < r.len() implies 0 <= #[trigger] r[i] < p by {
        assert(pc(r, i) == pc(d, i));
        lemma_pow_positive(p, i as nat);
        lemma_div_pos_is_pos(k, pow(p, i as nat));
        lemma_mod_bound(k / pow(p, i as nat), p);
    }
    assert forall|j: int| 0 <= j < n implies #[trigger] pc(radix_seq(k, p, n), j) == digit(k, j, p) by {
        assert(pc(r, j) == pc(d, j));
    }
}

/// A canonical sequence of at most `n` coefficients is the base-`p` form of its value.
pub proof fn lemma_radix_of_value(s: Seq<int>, p: int, n: nat)
    requires
        p > 0,
        canonical(s, p),
        s.len() <= n,
    ensures
        0 <= value(s, p) < pow(p, n),
        radix_seq(value(s, p), p, n) == s,
{
    lemma_value_bound(s, p);
    lemma_pow_increases(p as nat, s.len(), n);
    let x = value(s, p);
    lemma_radix_seq(x, p, n);
    assert forall|j: int| #[trigger] pc(radix_seq(x, p, n), j) == pc(s, j) by {
        if 0 <= j < n {
            lemma_digits_value(s, p, j);
        } else if j >= n {
            assert(pc(radix_seq(x, p, n), j) == 0);
        }
    }
    lemma_pc_ext(radix_seq(x, p, n), s);
}

} // verus!
