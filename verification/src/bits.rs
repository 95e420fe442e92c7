//! Parities of bit strings.

use vstd::prelude::*;

verus! {

/// The parity (exclusive or) of the bits of `msg` at the positions `idx`.
pub open spec fn parity(msg: Seq<bool>, idx: Seq<usize>) -> bool
    decreases idx.len(),
{
    if idx.len() == 0 {
        false
    } else {
        parity(msg, idx.drop_last()) != msg[idx.last() as int]
    }
}

/// The parity of the bits `a[i] && b[i]` for `i < n`.
pub open spec fn and_parity(a: Seq<bool>, b: Seq<bool>, n: int) -> bool
    decreases n,
{
    if n <= 0 {
        false
    } else {
        and_parity(a, b, n - 1) != (a[n - 1] && b[n - 1])
    }
}

/// The parity of the bits of `msg` at the positions `idx`; every position must be in range.
pub fn calc_syndrome(idx: &[usize], msg: &[bool]) -> (r: bool)
    requires
        forall|j: int| 0 <= j < idx.len() ==> #[trigger] idx[j] < msg.len(),
    ensures
        r == parity(msg@, idx@),
{
    let mut acc = false;
    let mut j: usize = 0;
    while j < idx.len()
        invariant
            j <= idx.len(),
            forall|t: int| 0 <= t < idx.len() ==> #[trigger] idx[t] < msg.len(),
            acc == parity(msg@, idx@.subrange(0, j as int)),
        decreases idx.len() - j,
    {
        proof {
            assert(idx@.subrange(0, j + 1).drop_last() =~= idx@.subrange(0, j as int));
        }
        acc = acc != msg[idx[j]];
        j = j + 1;
    }
    proof {
        assert(idx@.subrange(0, j as int) =~= idx@);
    }
    acc
}

} // verus!
