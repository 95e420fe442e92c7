//! The codec description of a parity matrix in the text format of the decoding service.

use vstd::prelude::*;

use crate::decimal::{append_decimal, decimal};
use crate::error::{Error, ErrorKind};
use crate::matrices::ParityMatrix;
use crate::sparse_matrix::entries_view;

verus! {

/// Numbers in decimal, separated by single spaces.
pub open spec fn joined(ns: Seq<nat>) -> Seq<char>
    decreases ns.len(),
{
    if ns.len() == 0 {
        Seq::empty()
    } else if ns.len() == 1 {
        decimal(ns[0])
    } else {
        joined(ns.drop_last()) + seq![' '] + decimal(ns.last())
    }
}

/// The lengths of the lists.
pub open spec fn lengths(ls: Seq<Seq<usize>>) -> Seq<nat> {
    Seq::new(ls.len(), |i: int| ls[i].len())
}

/// The indices of a list counted from one.
pub open spec fn one_based(l: Seq<usize>) -> Seq<nat> {
    Seq::new(l.len(), |i: int| (l[i] + 1) as nat)
}

/// The numbers as natural numbers.
pub open spec fn nats(l: Seq<usize>) -> Seq<nat> {
    Seq::new(l.len(), |i: int| l[i] as nat)
}

/// The largest of the first `k` lengths.
pub open spec fn max_len(ls: Seq<Seq<usize>>, k: int) -> nat
    decreases k,
{
    if k <= 0 {
        0
    } else {
        let m = max_len(ls, k - 1);
        if ls[k - 1].len() > m {
            ls[k - 1].len()
        } else {
            m
        }
    }
}

/// The lines of one column: its weight, then its nonzero positions counted from one.
pub open spec fn column_text(c: Seq<usize>) -> Seq<char> {
    if c.len() == 0 {
        decimal(0) + seq!['\n']
    } else {
        decimal(c.len()) + seq!['\n'] + joined(one_based(c)) + seq!['\n']
    }
}

/// The lines of the first `k` columns.
pub open spec fn columns_text(cols: Seq<Seq<usize>>, k: int) -> Seq<char>
    decreases k,
{
    if k <= 0 {
        Seq::empty()
    } else {
        columns_text(cols, k - 1) + column_text(cols[k - 1])
    }
}

/// The codec description of a binary LDPC code with the given rows and columns.
pub open spec fn codec_text(rows: Seq<Seq<usize>>, cols: Seq<Seq<usize>>) -> Seq<char> {
    "# Codec\nldpc<gf2,double>\n"@ + "# Version\n5\n"@ + "# SPA type (trad|gdl)\ngdl\n"@
        + "# Number of iterations\n50\n"@ + "# Clipping method\nzero\n"@
        + "# Value of almostzero\n1e-100\n"@ + "# Reduce generator matrix to REF?\n1\n"@
        + "# Length (n)\n"@ + decimal(cols.len()) + "\n"@
        + "# Dimension (m)\n"@ + decimal(rows.len()) + "\n"@
        + "# Max column weight\n"@ + decimal(max_len(cols, cols.len() as int)) + "\n"@
        + "# Max row weight\n"@ + decimal(max_len(rows, rows.len() as int)) + "\n"@
        + "# Non-zero values (ones|random|provided)\nones\n"@
        + "# Column weight vector\n"@ + decimal(cols.len()) + "\n"@ + joined(lengths(cols)) + "\n"@
        + "# Row weight vector\n"@ + decimal(rows.len()) + "\n"@ + joined(lengths(rows)) + "\n"@
        + "# Non zero positions per col\n"@ + columns_text(cols, cols.len() as int) + "\n"@
}

/// The neighbour lists of a list of entries.
pub open spec fn lists_of(es: Seq<(usize, Seq<usize>)>) -> Seq<Seq<usize>> {
    Seq::new(es.len(), |i: int| es[i].1)
}

fn append_joined(out: &mut String, ns: &Vec<usize>, plus_one: bool)
    requires
        plus_one ==> forall|i: int| 0 <= i < ns.len() ==> #[trigger] ns[i] < usize::MAX,
    ensures
        final(out)@ == old(out)@ + joined(
            if plus_one {
                one_based(ns@)
            } else {
                nats(ns@)
            },
        ),
{
    proof {
        reveal_strlit(" ");
    }
    let ghost before = out@;
    let ghost target = if plus_one {
        one_based(ns@)
    } else {
        nats(ns@)
    };
    let mut i: usize = 0;
    while i < ns.len()
        invariant
            i <= ns.len(),
            target.len() == ns.len(),
            forall|t: int| 0 <= t < ns.len() ==> #[trigger] target[t] == if plus_one {
                (ns@[t] + 1) as nat
            } else {
                ns@[t] as nat
            },
            plus_one ==> forall|t: int| 0 <= t < ns.len() ==> #[trigger] ns[t] < usize::MAX,
            out@ == before + joined(target.subrange(0, i as int)),
        decreases ns.len() - i,
    {
        let ghost mid = out@;
        if i > 0 {
            out.append(" ");
        }
        let v = if plus_one { ns[i] + 1 } else { ns[i] };
        append_decimal(out, v);
        proof {
            let sub = target.subrange(0, i + 1);
            assert(sub.drop_last() =~= target.subrange(0, i as int));
            assert(sub.last() == v as nat);
            if i > 0 {
                reveal_strlit(" ");
                assert(" "@ =~= seq![' ']);
                assert(joined(sub) == joined(sub.drop_last()) + seq![' '] + decimal(sub.last()));
                assert(out@ =~= before + joined(sub));
            } else {
                assert(target.subrange(0, 0) =~= Seq::<nat>::empty());
                assert(out@ =~= before + joined(sub));
            }
        }
        i = i + 1;
    }
    proof {
        assert(target.subrange(0, i as int) =~= target);
    }
}

/// The codec description of a parity matrix: its dimensions, its largest column and row
/// weights, the weight of every column and row, and the nonzero positions of every column.
/// Fails when the matrix has no row or no column.
pub fn parity_matrix_to_codec(matrix: &ParityMatrix) -> (r: Result<String, Error>)
    requires
        forall|i: int, j: int|
            0 <= i < matrix.matrix().variable_entries().len() && 0 <= j < matrix.matrix().variable_entries()[i].1.len()
                ==> #[trigger] matrix.matrix().variable_entries()[i].1[j] < usize::MAX,
    ensures
        r is Err <==> (matrix.matrix().factor_entries().len() == 0 || matrix.matrix().variable_entries().len() == 0),
        r matches Err(e) ==> e.error_kind == ErrorKind::InconsistentData,
        r matches Ok(text) ==> text@ == codec_text(
            lists_of(matrix.matrix().factor_entries()),
            lists_of(matrix.matrix().variable_entries()),
        ),
{
    let fs = matrix.sparse().iter_factors();
    let vs = matrix.sparse().iter_variables();
    let ghost rows = lists_of(entries_view(fs@));
    let ghost cols = lists_of(entries_view(vs@));
    if fs.len() == 0 {
        return Err(Error::new(ErrorKind::InconsistentData, "Max row weight not found.".to_owned()));
    }
    if vs.len() == 0 {
        return Err(Error::new(ErrorKind::InconsistentData, "Max col weight not found.".to_owned()));
    }
    let mut row_lengths: Vec<usize> = Vec::new();
    let mut max_row: usize = 0;
    let mut i: usize = 0;
    while i < fs.len()
        invariant
            i <= fs.len(),
            rows == lists_of(entries_view(fs@)),
            row_lengths@.len() == i,
            forall|t: int| 0 <= t < i ==> #[trigger] row_lengths@[t] == rows[t].len(),
            max_row == max_len(rows, i as int),
        decreases fs.len() - i,
    {
        let l = fs[i].1.len();
        proof {
            assert(rows[i as int].len() == l);
        }
        if l > max_row {
            max_row = l;
        }
        row_lengths.push(l);
        i = i + 1;
    }
    let mut col_lengths: Vec<usize> = Vec::new();
    let mut max_col: usize = 0;
    let mut i: usize = 0;
    while i < vs.len()
        invariant
            i <= vs.len(),
            cols == lists_of(entries_view(vs@)),
            col_lengths@.len() == i,
            forall|t: int| 0 <= t < i ==> #[trigger] col_lengths@[t] == cols[t].len(),
            max_col == max_len(cols, i as int),
        decreases vs.len() - i,
    {
        let l = vs[i].1.len();
        proof {
            assert(cols[i as int].len() == l);
        }
        if l > max_col {
            max_col = l;
        }
        col_lengths.push(l);
        i = i + 1;
    }
    proof {
        assert(nats(row_lengths@) =~= lengths(rows));
        assert(nats(col_lengths@) =~= lengths(cols));
    }
    let mut out = String::new();
    out.append("# Codec\nldpc<gf2,double>\n");
    out.append("# Version\n5\n");
    out.append("# SPA type (trad|gdl)\ngdl\n");
    out.append("# Number of iterations\n50\n");
    out.append("# Clipping method\nzero\n");
    out.append("# Value of almostzero\n1e-100\n");
    out.append("# Reduce generator matrix to REF?\n1\n");
    out.append("# Length (n)\n");
    append_decimal(&mut out, vs.len());
    out.append("\n");
    out.append("# Dimension (m)\n");
    append_decimal(&mut out, fs.len());
    out.append("\n");
    out.append("# Max column weight\n");
    append_decimal(&mut out, max_col);
    out.append("\n");
    out.append("# Max row weight\n");
    append_decimal(&mut out, max_row);
    out.append("\n");
    out.append("# Non-zero values (ones|random|provided)\nones\n");
    out.append("# Column weight vector\n");
    append_decimal(&mut out, vs.len());
    out.append("\n");
    append_joined(&mut out, &col_lengths, false);
    out.append("\n");
    out.append("# Row weight vector\n");
    append_decimal(&mut out, fs.len());
    out.append("\n");
    append_joined(&mut out, &row_lengths, false);
    out.append("\n");
    out.append("# Non zero positions per col\n");
    let ghost head = out@;
    let mut k: usize = 0;
    while k < vs.len()
        invariant
            k <= vs.len(),
            cols == lists_of(entries_view(vs@)),
            cols == lists_of(matrix.matrix().variable_entries()),
            forall|a: int, b: int| 0 <= a < cols.len() && 0 <= b < cols[a].len() ==> #[trigger] cols[a][b] < usize::MAX,
            out@ == head + columns_text(cols, k as int),
        decreases vs.len() - k,
    {
        proof {
            reveal_strlit("\n");
            assert(vs@[k as int].1@ == cols[k as int]);
        }
        let c = &vs[k].1;
        let ghost mid = out@;
        append_decimal(&mut out, c.len());
        out.append("\n");
        if c.len() > 0 {
            append_joined(&mut out, c, true);
            out.append("\n");
        }
        proof {
            assert(out@ =~= mid + column_text(cols[k as int]));
            assert(out@ =~= head + columns_text(cols, k + 1));
        }
        k = k + 1;
    }
    out.append("\n");
    proof {
        assert(rows == lists_of(matrix.matrix().factor_entries()));
        assert(out@ =~= codec_text(rows, cols));
    }
    Ok(out)
}

} // verus!
