//! Toeplitz hashing, the universal hash family used for privacy amplification.

use vstd::prelude::*;

use crate::bits::and_parity;
use crate::error::{Error, ErrorKind};

verus! {

/// `rand::random::<bool>()`: a uniformly random bit from the thread-local generator.
/// Nothing is stated of the bit.
#[verifier::external_body]
fn random_bit() -> bool {
    rand::random::<bool>()
}

/// A Toeplitz matrix with `n_output` rows and `n_input` columns, given by its first column
/// and first row: `n_input + n_output - 1` bits.
#[derive(Debug)]
pub struct Toeplitz {
    n_input: usize,
    n_output: usize,
    inner: Vec<bool>,
}

impl Toeplitz {
    /// The number of input bits.
    pub closed spec fn input_len(&self) -> int {
        self.n_input as int
    }

    /// The number of output bits.
    pub closed spec fn output_len(&self) -> int {
        self.n_output as int
    }

    /// The bits that define the matrix.
    pub closed spec fn diagonals(&self) -> Seq<bool> {
        self.inner@
    }

    #[verifier::type_invariant]
    pub(crate) closed spec fn inv(self) -> bool {
        self.inner.len() == self.n_input + self.n_output - 1
    }

    /// A random matrix for `n_input` input bits and `n_output` output bits.
    pub fn new(n_input: usize, n_output: usize) -> (r: Self)
        requires
            n_input + n_output >= 1,
            n_input + n_output <= usize::MAX,
        ensures
            r.input_len() == n_input,
            r.output_len() == n_output,
            r.diagonals().len() == n_input + n_output - 1,
    {
        let mut inner: Vec<bool> = Vec::new();
        let n = n_input + n_output - 1;
        while inner.len() < n
            invariant
                inner.len() <= n,
            decreases n - inner.len(),
        {
            inner.push(random_bit());
        }
        Toeplitz { n_input, n_output, inner }
    }

    /// The matrix given by `data`, or `None` when it does not hold `n_input + n_output - 1` bits.
    pub fn from_bitvec(n_input: usize, n_output: usize, data: Vec<bool>) -> (r: Option<Self>)
        requires
            n_input + n_output >= 1,
            n_input + n_output <= usize::MAX,
        ensures
            r is None <==> data.len() != n_input + n_output - 1,
            r matches Some(t) ==> t.input_len() == n_input && t.output_len() == n_output
                && t.diagonals() == data@,
    {
        if data.len() != n_input + n_output - 1 {
            return None;
        }
        Some(Toeplitz { n_input, n_output, inner: data })
    }

    /// The bits that define the matrix.
    pub fn bits(&self) -> (r: &Vec<bool>)
        ensures
            r@ == self.diagonals(),
    {
        &self.inner
    }

    /// The number of input bits.
    pub fn n_input(&self) -> (r: usize)
        ensures
            r == self.input_len(),
    {
        self.n_input
    }

    /// The number of output bits.
    pub fn n_output(&self) -> (r: usize)
        ensures
            r == self.output_len(),
    {
        self.n_output
    }

    /// The hash of `other`: output bit `j` is the parity of `other` and the window of
    /// `n_input` defining bits that starts at `n_output - 1 - j`. Fails when `other` does not
    /// have `n_input` bits. A matrix without input bits has no windows to hash the empty
    /// word with.
    pub fn hash_data(&self, other: Vec<bool>) -> (r: Result<Vec<bool>, Error>)
        requires
            self.input_len() > 0 || other.len() > 0,
        ensures
            r is Err <==> other.len() != self.input_len(),
            r matches Err(e) ==> e.error_kind == ErrorKind::InconsistentData,
            r matches Ok(h) ==> h@ == toeplitz_hash(self.diagonals(), other@, self.input_len(), self.output_len()),
    {
        proof {
            use_type_invariant(self);
        }
        if other.len() != self.n_input {
            return Err(Error::new(ErrorKind::InconsistentData, length_mismatch_message()));
        }
        let n = self.n_input;
        let m = self.n_output;
        let mut result: Vec<bool> = Vec::new();
        let mut j: usize = 0;
        while j < m
            invariant
                j <= m,
                m == self.output_len(),
                n == self.input_len(),
                n > 0,
                other.len() == n,
                self.inner.len() == n + m - 1,
                result@ == toeplitz_hash(self.diagonals(), other@, n as int, m as int).subrange(0, j as int),
            decreases m - j,
        {
            let start = m - 1 - j;
            let mut acc = false;
            let mut i: usize = 0;
            while i < n
                invariant
                    i <= n,
                    start + n <= self.inner.len(),
                    other.len() == n,
                    acc == and_parity(self.inner@.subrange(start as int, start + n), other@, i as int),
                decreases n - i,
            {
                acc = acc != (self.inner[start + i] && other[i]);
                i = i + 1;
            }
            proof {
                let full = toeplitz_hash(self.diagonals(), other@, n as int, m as int);
                assert(full.subrange(0, j + 1) =~= full.subrange(0, j as int).push(acc));
            }
            result.push(acc);
            j = j + 1;
        }
        proof {
            let full = toeplitz_hash(self.diagonals(), other@, n as int, m as int);
            assert(full.subrange(0, m as int) =~= full);
        }
        Ok(result)
    }
}

impl Clone for Toeplitz {
    fn clone(&self) -> (r: Self)
        ensures
            r.input_len() == self.input_len(),
            r.output_len() == self.output_len(),
            r.diagonals() == self.diagonals(),
    {
        proof {
            use_type_invariant(self);
        }
        Toeplitz { n_input: self.n_input, n_output: self.n_output, inner: self.inner.clone() }
    }
}

/// The Toeplitz hash of `x` with `n` input bits and `m` output bits defined by `d`.
pub open spec fn toeplitz_hash(d: Seq<bool>, x: Seq<bool>, n: int, m: int) -> Seq<bool> {
    Seq::new(m as nat, |j: int| and_parity(d.subrange(m - 1 - j, m - 1 - j + n), x, n))
}

/// The word of `n` bits with a single one, at position `i`.
pub open spec fn unit_word(n: int, i: int) -> Seq<bool> {
    Seq::new(n as nat, |k: int| k == i)
}

/// The bitwise exclusive or of two words of the same length.
pub open spec fn xor_words(x: Seq<bool>, y: Seq<bool>) -> Seq<bool> {
    Seq::new(x.len(), |k: int| x[k] != y[k])
}

proof fn lemma_and_parity_unit(a: Seq<bool>, n: int, i: int, k: int)
    requires
        0 <= i < n,
        0 <= k <= n,
    ensures
        and_parity(a, unit_word(n, i), k) == (k > i && a[i]),
    decreases k,
{
    if k > 0 {
        lemma_and_parity_unit(a, n, i, k - 1);
        assert(unit_word(n, i)[k - 1] == (k - 1 == i));
    }
}

proof fn lemma_and_parity_xor(a: Seq<bool>, x: Seq<bool>, y: Seq<bool>, k: int)
    requires
        x.len() == y.len(),
        k <= x.len(),
    ensures
        and_parity(a, xor_words(x, y), k) == (and_parity(a, x, k) != and_parity(a, y, k)),
    decreases k,
{
    if k > 0 {
        lemma_and_parity_xor(a, x, y, k - 1);
        assert(xor_words(x, y)[k - 1] == (x[k - 1] != y[k - 1]));
    }
}

/// The Toeplitz hash is the product with the matrix whose entry in row `j` and column `i`
/// is the defining bit `d[m - 1 - j + i]`: hashing the word with a single one at input
/// position `i` gives, in output bit `j`, exactly that entry, for every input position.
pub proof fn law_toeplitz_hash_of_unit_word(d: Seq<bool>, n: int, m: int, i: int, j: int)
    requires
        d.len() == n + m - 1,
        0 <= i < n,
        0 <= j < m,
    ensures
        toeplitz_hash(d, unit_word(n, i), n, m).len() == m,
        toeplitz_hash(d, unit_word(n, i), n, m)[j] == d[m - 1 - j + i],
{
    let w = d.subrange(m - 1 - j, m - 1 - j + n);
    lemma_and_parity_unit(w, n, i, n);
    assert(w[i] == d[m - 1 - j + i]);
}

/// The Toeplitz hash is linear over the bits: the hash of the exclusive or of two words is
/// the exclusive or of their hashes. With the hash of each single-one word, this fixes the
/// hash of every word.
pub proof fn law_toeplitz_hash_linear(d: Seq<bool>, x: Seq<bool>, y: Seq<bool>, n: int, m: int)
    requires
        d.len() == n + m - 1,
        x.len() == n,
        y.len() == n,
        m >= 0,
    ensures
        toeplitz_hash(d, xor_words(x, y), n, m) == xor_words(toeplitz_hash(d, x, n, m), toeplitz_hash(d, y, n, m)),
{
    assert forall|j: int| 0 <= j < m implies #[trigger] toeplitz_hash(d, xor_words(x, y), n, m)[j] == xor_words(
        toeplitz_hash(d, x, n, m),
        toeplitz_hash(d, y, n, m),
    )[j] by {
        lemma_and_parity_xor(d.subrange(m - 1 - j, m - 1 - j + n), x, y, n);
    }
    assert(toeplitz_hash(d, xor_words(x, y), n, m) =~= xor_words(toeplitz_hash(d, x, n, m), toeplitz_hash(d, y, n, m)));
}

fn length_mismatch_message() -> (r: String)
    ensures
        r@ == "Length mismatch between the Toeplitz matrix and the data"@,
{
    "Length mismatch between the Toeplitz matrix and the data".to_owned()
}

} // verus!
