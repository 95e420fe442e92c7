//! Parity-check and generator matrices of binary linear codes.

use vstd::prelude::*;
use vstd::string::StringSliceAdditionalSpecFns;

use crate::alist::{alist_outcome, error_status, AlistStatus};
use crate::bits::{calc_syndrome, parity};
use crate::sparse_matrix::{SparseMatrix, SparseMatrixError};
use crate::text::lines;

verus! {

/// The syndrome of `msg`: bit `f` is the parity of `msg` over the neighbours of factor `f`.
pub open spec fn syndrome(es: Seq<(usize, Seq<usize>)>, msg: Seq<bool>) -> Seq<bool> {
    Seq::new(es.len(), |f: int| parity(msg, es[f].1))
}

/// Every neighbour index of every factor is below `n`.
pub open spec fn neighbours_below(es: Seq<(usize, Seq<usize>)>, n: int) -> bool {
    forall|f: int, j: int| 0 <= f < es.len() && 0 <= j < es[f].1.len() ==> #[trigger] es[f].1[j] < n
}

/// `i` occurs an odd number of times in `idx`.
pub open spec fn occurs_odd(idx: Seq<usize>, i: int) -> bool
    decreases idx.len(),
{
    if idx.len() == 0 {
        false
    } else {
        occurs_odd(idx.drop_last(), i) != (idx.last() == i)
    }
}

/// Bit `i` of the codeword of `msg` from the first `k` factors: the parity of the message
/// bits of the factors that have `i` as a neighbour (an odd number of times).
pub open spec fn codeword_bit(es: Seq<(usize, Seq<usize>)>, msg: Seq<bool>, i: int, k: int) -> bool
    decreases k,
{
    if k <= 0 {
        false
    } else {
        codeword_bit(es, msg, i, k - 1) != (msg[k - 1] && occurs_odd(es[k - 1].1, i))
    }
}

/// The codeword of `msg`, of length `len`.
pub open spec fn codeword(es: Seq<(usize, Seq<usize>)>, msg: Seq<bool>, len: int) -> Seq<bool> {
    Seq::new(len as nat, |i: int| codeword_bit(es, msg, i, es.len() as int))
}

/// A parity-check matrix: a factor per check and a variable per code bit.
#[derive(Debug)]
pub struct ParityMatrix {
    inner: SparseMatrix,
}

impl ParityMatrix {
    /// The underlying sparse matrix.
    pub closed spec fn matrix(&self) -> SparseMatrix {
        self.inner
    }

    /// The parity-check matrix with the given dense rows.
    pub fn from_array(rows: &[Vec<u8>]) -> (r: Self)
        ensures
            r.matrix().factor_entries() == crate::sparse_matrix::array_factors(
                crate::sparse_matrix::rows_view(rows@),
            ),
            r.matrix().variable_entries() == crate::sparse_matrix::array_variables(
                crate::sparse_matrix::rows_view(rows@),
                crate::sparse_matrix::max_width(crate::sparse_matrix::rows_view(rows@), rows@.len() as int),
            ),
    {
        ParityMatrix { inner: SparseMatrix::from_array(rows) }
    }

    /// Reads a parity-check matrix in the alist format.
    pub fn from_alist_str(src: &str) -> (r: Result<Self, SparseMatrixError>)
        requires
            alist_outcome(lines(src.spec_bytes())) is Some,
        ensures
            r is Ok <==> alist_outcome(lines(src.spec_bytes())) == Some(AlistStatus::Parsed),
            r matches Err(e) ==> Some(error_status(e)) == alist_outcome(lines(src.spec_bytes())),
            r matches Ok(m) ==> m.matrix().factor_entries() == crate::sparse_matrix::indexed(
                crate::alist::alist_factors(lines(src.spec_bytes())),
            ) && m.matrix().variable_entries() == crate::sparse_matrix::indexed(
                crate::alist::alist_variables(lines(src.spec_bytes())),
            ),
    {
        match SparseMatrix::from_alist_str(src) {
            Ok(m) => Ok(ParityMatrix { inner: m }),
            Err(e) => Err(e),
        }
    }

    /// The underlying sparse matrix.
    pub fn sparse(&self) -> (r: &SparseMatrix)
        ensures
            *r == self.matrix(),
    {
        &self.inner
    }

    /// The syndrome of `message`: one parity bit per factor.
    pub fn calculate_syndrome(&self, message: &[bool]) -> (r: Vec<bool>)
        requires
            neighbours_below(self.matrix().factor_entries(), message.len() as int),
        ensures
            r@ == syndrome(self.matrix().factor_entries(), message@),
    {
        proof {
            use_type_invariant(&self.inner);
        }
        let es = self.inner.iter_factors();
        let ghost ev = self.matrix().factor_entries();
        let mut out: Vec<bool> = Vec::new();
        let mut f: usize = 0;
        while f < es.len()
            invariant
                f <= es.len(),
                ev == self.matrix().factor_entries(),
                crate::sparse_matrix::entries_view(es@) == ev,
                neighbours_below(ev, message.len() as int),
                out@ == syndrome(ev, message@).subrange(0, f as int),
            decreases es.len() - f,
        {
            proof {
                assert(ev[f as int].1 == es@[f as int].1@);
                assert forall|j: int| 0 <= j < es@[f as int].1.len() implies #[trigger] es@[f as int].1[j] < message.len() by {
                    assert(ev[f as int].1[j] < message.len());
                }
            }
            let b = calc_syndrome(es[f].1.as_slice(), message);
            proof {
                assert(syndrome(ev, message@).subrange(0, f + 1) =~= syndrome(ev, message@).subrange(0, f as int).push(b));
            }
            out.push(b);
            f = f + 1;
        }
        proof {
            assert(syndrome(ev, message@).subrange(0, f as int) =~= syndrome(ev, message@));
        }
        out
    }
}

/// A generator matrix: a factor per message bit, whose neighbours are the codeword bits it
/// contributes to.
#[derive(Debug)]
pub struct GeneratorMatrix {
    inner: SparseMatrix,
}

impl GeneratorMatrix {
    /// The underlying sparse matrix.
    pub closed spec fn matrix(&self) -> SparseMatrix {
        self.inner
    }

    /// The generator matrix with the given dense rows.
    pub fn from_array(rows: &[Vec<u8>]) -> (r: Self)
        ensures
            r.matrix().factor_entries() == crate::sparse_matrix::array_factors(
                crate::sparse_matrix::rows_view(rows@),
            ),
            r.matrix().variable_entries() == crate::sparse_matrix::array_variables(
                crate::sparse_matrix::rows_view(rows@),
                crate::sparse_matrix::max_width(crate::sparse_matrix::rows_view(rows@), rows@.len() as int),
            ),
    {
        GeneratorMatrix { inner: SparseMatrix::from_array(rows) }
    }

    /// Reads a generator matrix in the alist format.
    pub fn from_alist_str(src: &str) -> (r: Result<Self, SparseMatrixError>)
        requires
            alist_outcome(lines(src.spec_bytes())) is Some,
        ensures
            r is Ok <==> alist_outcome(lines(src.spec_bytes())) == Some(AlistStatus::Parsed),
            r matches Err(e) ==> Some(error_status(e)) == alist_outcome(lines(src.spec_bytes())),
            r matches Ok(m) ==> m.matrix().factor_entries() == crate::sparse_matrix::indexed(
                crate::alist::alist_factors(lines(src.spec_bytes())),
            ) && m.matrix().variable_entries() == crate::sparse_matrix::indexed(
                crate::alist::alist_variables(lines(src.spec_bytes())),
            ),
    {
        match SparseMatrix::from_alist_str(src) {
            Ok(m) => Ok(GeneratorMatrix { inner: m }),
            Err(e) => Err(e),
        }
    }

    /// The codeword of `message`, of length `codeword_len`; `None` when the message does not
    /// have one bit per factor or a neighbour lies beyond the codeword.
    pub fn generate_codeword(&self, message: &[bool], codeword_len: usize) -> (r: Option<Vec<bool>>)
        ensures
            r is None <==> (message.len() != self.matrix().factor_entries().len() || !neighbours_below(
                self.matrix().factor_entries(),
                codeword_len as int,
            )),
            r matches Some(c) ==> c@ == codeword(self.matrix().factor_entries(), message@, codeword_len as int),
    {
        proof {
            use_type_invariant(&self.inner);
        }
        let es = self.inner.iter_factors();
        let ghost ev = self.matrix().factor_entries();
        if message.len() != es.len() {
            return None;
        }
        let mut cw: Vec<bool> = Vec::new();
        while cw.len() < codeword_len
            invariant
                cw.len() <= codeword_len,
                forall|i: int| 0 <= i < cw.len() ==> cw@[i] == false,
            decreases codeword_len - cw.len(),
        {
            cw.push(false);
        }
        let mut f: usize = 0;
        while f < es.len()
            invariant
                f <= es.len(),
                message.len() == es.len(),
                ev == self.matrix().factor_entries(),
                crate::sparse_matrix::entries_view(es@) == ev,
                forall|i: int| 0 <= i < ev.len() ==> #[trigger] ev[i].0 == i,
                cw.len() == codeword_len,
                forall|g: int, j: int| 0 <= g < f && 0 <= j < ev[g].1.len() ==> #[trigger] ev[g].1[j] < codeword_len,
                forall|i: int| 0 <= i < codeword_len ==> cw@[i] == #[trigger] codeword_bit(ev, message@, i, f as int),
            decreases es.len() - f,
        {
            let factor = es[f].0;
            proof {
                assert(ev[f as int].0 == f);
            }
            let bit = message[factor];
            let nb = &es[f].1;
            let ghost nv = ev[f as int].1;
            proof {
                assert(nv == nb@);
            }
            let mut j: usize = 0;
            while j < nb.len()
                invariant
                    j <= nb.len(),
                    f < es.len(),
                    message.len() == es.len(),
                    ev == self.matrix().factor_entries(),
                    crate::sparse_matrix::entries_view(es@) == ev,
                    nv == ev[f as int].1,
                    nv == nb@,
                    bit == message@[f as int],
                    cw.len() == codeword_len,
                    forall|t: int| 0 <= t < j ==> #[trigger] nb@[t] < codeword_len,
                    forall|i: int| 0 <= i < codeword_len ==> #[trigger] cw@[i] == (codeword_bit(ev, message@, i, f as int) != (bit
                        && occurs_odd(nv.subrange(0, j as int), i))),
                decreases nb.len() - j,
            {
                let g = nb[j];
                if g >= codeword_len {
                    proof {
                        assert(ev[f as int].1[j as int] >= codeword_len);
                        assert(!neighbours_below(ev, codeword_len as int));
                    }
                    return None;
                }
                let old_bit = cw[g];
                let ghost before = cw@;
                cw.set(g, old_bit != bit);
                proof {
                    assert(cw@ == before.update(g as int, old_bit != bit));
                }
                proof {
                    assert(nv.subrange(0, j + 1).drop_last() =~= nv.subrange(0, j as int));
                    assert(nv.subrange(0, j + 1).last() == g);
                }
                let ghost jj = j as int;
                j = j + 1;
                proof {
                    assert forall|i: int| 0 <= i < codeword_len implies #[trigger] cw@[i] == (codeword_bit(ev, message@, i, f as int)
                        != (bit && occurs_odd(nv.subrange(0, j as int), i))) by {
                        assert(nv.subrange(0, j as int) == nv.subrange(0, jj + 1));
                        assert(occurs_odd(nv.subrange(0, jj + 1), i) == (occurs_odd(nv.subrange(0, jj), i) != (g == i)));
                        assert(before[i] == (codeword_bit(ev, message@, i, f as int) != (bit && occurs_odd(nv.subrange(0, jj), i))));
                        if i == g {
                            assert(cw@[i] == (before[i] != bit));
                        } else {
                            assert(cw@[i] == before[i]);
                        }
                    }
                }
            }
            proof {
                assert(nv.subrange(0, j as int) =~= nv);
                assert forall|i: int| 0 <= i < codeword_len implies cw@[i] == #[trigger] codeword_bit(ev, message@, i, f + 1) by {
                    assert(occurs_odd(nv.subrange(0, j as int), i) == occurs_odd(ev[f as int].1, i));
                }
                assert forall|g2: int, j2: int| 0 <= g2 < f + 1 && 0 <= j2 < ev[g2].1.len() implies #[trigger] ev[g2].1[j2]
                    < codeword_len by {
                    if g2 == f {
                        assert(nb@[j2] < codeword_len);
                    }
                }
            }
            f = f + 1;
        }
        proof {
            assert(cw@ =~= codeword(ev, message@, codeword_len as int));
        }
        Some(cw)
    }
}

} // verus!
