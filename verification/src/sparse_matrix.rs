//! Sparse binary matrices, stored as neighbour lists of factors (rows) and variables (columns),
//! built from dense arrays or read from the alist format.

use vstd::prelude::*;
use vstd::string::StringSliceAdditionalSpecFns;

use crate::alist::{alist_factors, alist_outcome, alist_variables, error_status, lists_view, parse_alist, AlistStatus};
use crate::text::lines;

verus! {

/// The reason why a sparse matrix could not be read.
#[derive(Debug)]
pub enum SparseMatrixError {
    /// The description contradicts itself.
    BadAListFile(String),
    /// A word that should be a number is not; the word.
    ConversionError(String),
    /// Reading the description failed.
    IOError(String),
    /// A line that should hold two numbers does not; the line.
    ExpectedTuple(String),
    FileTooShort,
    FileTooLong,
}

/// Why the LDPC decoder could not read its parity matrix: the same reasons as for a sparse
/// matrix.
#[derive(Debug)]
pub enum ParityMatrixError {
    /// The description contradicts itself.
    BadAListFile(String),
    /// A word that should be a number is not; the word.
    ConversionError(String),
    /// Reading the description failed.
    IOError(String),
    /// A line that should hold two numbers does not; the line.
    ExpectedTuple(String),
    FileTooShort,
    FileTooLong,
}

/// The text of an error of reading a matrix, a line.
pub open spec fn matrix_error_text(kind: int, payload: Seq<char>) -> Seq<char> {
    if kind == 0 {
        "Alist file is malformed: "@ + payload + "\n"@
    } else if kind == 1 {
        "Error while performing conversion: "@ + payload + "\n"@
    } else if kind == 2 {
        "Error durion IO: "@ + payload + "\n"@
    } else if kind == 3 {
        "Expected a tuple, got: "@ + payload + "\n"@
    } else if kind == 4 {
        "File shorted than expected\n"@
    } else {
        "File longer than expected\n"@
    }
}

fn matrix_error_describe(kind: u8, payload: &str) -> (r: String)
    ensures
        r@ == matrix_error_text(kind as int, payload@),
{
    let mut out = String::new();
    if kind == 0 {
        out.append("Alist file is malformed: ");
    } else if kind == 1 {
        out.append("Error while performing conversion: ");
    } else if kind == 2 {
        out.append("Error durion IO: ");
    } else if kind == 3 {
        out.append("Expected a tuple, got: ");
    } else if kind == 4 {
        out.append("File shorted than expected\n");
        proof {
            assert(out@ =~= matrix_error_text(kind as int, payload@));
        }
        return out;
    } else {
        out.append("File longer than expected\n");
        proof {
            assert(out@ =~= matrix_error_text(kind as int, payload@));
        }
        return out;
    }
    out.append(payload);
    out.append("\n");
    proof {
        assert(out@ =~= matrix_error_text(kind as int, payload@));
    }
    out
}

impl SparseMatrixError {
    /// The text of the error, a line: for a word that is not a number, the word.
    pub fn describe(&self) -> (r: String)
        ensures
            r@ == match self {
                SparseMatrixError::BadAListFile(m) => matrix_error_text(0, m@),
                SparseMatrixError::ConversionError(m) => matrix_error_text(1, m@),
                SparseMatrixError::IOError(m) => matrix_error_text(2, m@),
                SparseMatrixError::ExpectedTuple(m) => matrix_error_text(3, m@),
                SparseMatrixError::FileTooShort => matrix_error_text(4, Seq::empty()),
                SparseMatrixError::FileTooLong => matrix_error_text(5, Seq::empty()),
            },
    {
        match self {
            SparseMatrixError::BadAListFile(m) => matrix_error_describe(0, m.as_str()),
            SparseMatrixError::ConversionError(m) => matrix_error_describe(1, m.as_str()),
            SparseMatrixError::IOError(m) => matrix_error_describe(2, m.as_str()),
            SparseMatrixError::ExpectedTuple(m) => matrix_error_describe(3, m.as_str()),
            SparseMatrixError::FileTooShort => matrix_error_describe(4, ""),
            SparseMatrixError::FileTooLong => matrix_error_describe(5, ""),
        }
    }
}

impl ParityMatrixError {
    /// The text of the error, a line: for a word that is not a number, the word.
    pub fn describe(&self) -> (r: String)
        ensures
            r@ == match self {
                ParityMatrixError::BadAListFile(m) => matrix_error_text(0, m@),
                ParityMatrixError::ConversionError(m) => matrix_error_text(1, m@),
                ParityMatrixError::IOError(m) => matrix_error_text(2, m@),
                ParityMatrixError::ExpectedTuple(m) => matrix_error_text(3, m@),
                ParityMatrixError::FileTooShort => matrix_error_text(4, Seq::empty()),
                ParityMatrixError::FileTooLong => matrix_error_text(5, Seq::empty()),
            },
    {
        match self {
            ParityMatrixError::BadAListFile(m) => matrix_error_describe(0, m.as_str()),
            ParityMatrixError::ConversionError(m) => matrix_error_describe(1, m.as_str()),
            ParityMatrixError::IOError(m) => matrix_error_describe(2, m.as_str()),
            ParityMatrixError::ExpectedTuple(m) => matrix_error_describe(3, m.as_str()),
            ParityMatrixError::FileTooShort => matrix_error_describe(4, ""),
            ParityMatrixError::FileTooLong => matrix_error_describe(5, ""),
        }
    }
}

/// A neighbour list: the key of a factor or variable and the indices of its neighbours.
pub type Entry = (usize, Vec<usize>);

/// The view of a list of entries.
pub open spec fn entries_view(es: Seq<(usize, Vec<usize>)>) -> Seq<(usize, Seq<usize>)> {
    es.map_values(|e: (usize, Vec<usize>)| (e.0, e.1@))
}

/// The keys increase strictly.
pub open spec fn keys_increasing(es: Seq<(usize, Seq<usize>)>) -> bool {
    forall|i: int, j: int| 0 <= i < j < es.len() ==> es[i].0 < es[j].0
}

/// The neighbours of key `k` in `es`, or none when `k` is not a key.
pub open spec fn lookup(es: Seq<(usize, Seq<usize>)>, k: int) -> Seq<usize>
    decreases es.len(),
{
    if es.len() == 0 {
        Seq::empty()
    } else if es.last().0 == k {
        es.last().1
    } else {
        lookup(es.drop_last(), k)
    }
}

/// A sparse binary matrix: for each factor (row) the variables (columns) where it is one,
/// and for each variable the factors where it is one; keys in increasing order.
#[derive(Debug)]
pub struct SparseMatrix {
    factors: Vec<(usize, Vec<usize>)>,
    variables: Vec<(usize, Vec<usize>)>,
}

impl SparseMatrix {
    /// The factors with their neighbours, by increasing key.
    pub closed spec fn factor_entries(&self) -> Seq<(usize, Seq<usize>)> {
        entries_view(self.factors@)
    }

    /// The variables with their neighbours, by increasing key.
    pub closed spec fn variable_entries(&self) -> Seq<(usize, Seq<usize>)> {
        entries_view(self.variables@)
    }

    /// The factors are keyed `0, 1, ...` in order, and the variable keys increase.
    pub open spec fn wf(&self) -> bool {
        &&& forall|i: int| 0 <= i < self.factor_entries().len() ==> #[trigger] self.factor_entries()[i].0 == i
        &&& keys_increasing(self.factor_entries())
        &&& keys_increasing(self.variable_entries())
    }

    #[verifier::type_invariant]
    pub(crate) open spec fn inv(self) -> bool {
        self.wf()
    }
}

/// The positions of the nonzero entries among the first `n` of `row`, in increasing order.
pub open spec fn row_support(row: Seq<u8>, n: int) -> Seq<usize>
    decreases n,
{
    if n <= 0 {
        Seq::empty()
    } else if row[n - 1] != 0 {
        row_support(row, n - 1).push((n - 1) as usize)
    } else {
        row_support(row, n - 1)
    }
}

/// The rows among the first `m` that have a nonzero entry in column `v`, in increasing order.
pub open spec fn column_support(rows: Seq<Seq<u8>>, v: int, m: int) -> Seq<usize>
    decreases m,
{
    if m <= 0 {
        Seq::empty()
    } else if v < rows[m - 1].len() && rows[m - 1][v] != 0 {
        column_support(rows, v, m - 1).push((m - 1) as usize)
    } else {
        column_support(rows, v, m - 1)
    }
}

proof fn lemma_row_support_contains(row: Seq<u8>, n: int, v: int)
    requires
        0 <= n <= row.len(),
        row.len() <= usize::MAX,
        0 <= v <= usize::MAX,
    ensures
        row_support(row, n).contains(v as usize) <==> (v < n && row[v] != 0),
        forall|k: int| 0 <= k < row_support(row, n).len() ==> #[trigger] row_support(row, n)[k] < n,
    decreases n,
{
    if n > 0 {
        lemma_row_support_contains(row, n - 1, v);
        let prev = row_support(row, n - 1);
        if row[n - 1] != 0 {
            let cur = prev.push((n - 1) as usize);
            assert(cur[cur.len() - 1] == (n - 1) as usize);
            if cur.contains(v as usize) {
                let k = choose|k: int| 0 <= k < cur.len() && cur[k] == v as usize;
                if k < prev.len() {
                    assert(prev[k] == v as usize);
                }
            }
            if prev.contains(v as usize) {
                let k = choose|k: int| 0 <= k < prev.len() && prev[k] == v as usize;
                assert(cur[k] == v as usize);
            }
        }
    }
}

proof fn lemma_column_support_contains(rows: Seq<Seq<u8>>, v: int, m: int, f: int)
    requires
        0 <= m <= rows.len(),
        rows.len() <= usize::MAX,
        0 <= f <= usize::MAX,
        0 <= v,
    ensures
        column_support(rows, v, m).contains(f as usize) <==> (f < m && v < rows[f].len() && rows[f][v] != 0),
        forall|k: int| 0 <= k < column_support(rows, v, m).len() ==> #[trigger] column_support(rows, v, m)[k] < m,
    decreases m,
{
    if m > 0 {
        lemma_column_support_contains(rows, v, m - 1, f);
        let prev = column_support(rows, v, m - 1);
        if v < rows[m - 1].len() && rows[m - 1][v] != 0 {
            let cur = prev.push((m - 1) as usize);
            assert(cur[cur.len() - 1] == (m - 1) as usize);
            if cur.contains(f as usize) {
                let k = choose|k: int| 0 <= k < cur.len() && cur[k] == f as usize;
                if k < prev.len() {
                    assert(prev[k] == f as usize);
                }
            }
            if prev.contains(f as usize) {
                let k = choose|k: int| 0 <= k < prev.len() && prev[k] == f as usize;
                assert(cur[k] == f as usize);
            }
        }
    }
}

/// Built from dense rows, the two lists of a sparse matrix agree: factor `f` lists variable
/// `v` exactly when the nonzero rows of column `v` include `f`, which is when the entry at
/// row `f` and column `v` is nonzero.
pub proof fn law_array_lists_agree(rows: Seq<Seq<u8>>, f: int, v: int)
    requires
        0 <= f < rows.len() <= usize::MAX,
        rows[f].len() <= usize::MAX,
        0 <= v <= usize::MAX,
    ensures
        array_factors(rows)[f].1.contains(v as usize) <==> (v < rows[f].len() && rows[f][v] != 0),
        column_support(rows, v, rows.len() as int).contains(f as usize) <==> (v < rows[f].len() && rows[f][v] != 0),
{
    lemma_row_support_contains(rows[f], rows[f].len() as int, v);
    lemma_column_support_contains(rows, v, rows.len() as int, f);
}

/// The factor lists of a dense matrix: every row, with its nonzero columns.
pub open spec fn array_factors(rows: Seq<Seq<u8>>) -> Seq<(usize, Seq<usize>)> {
    Seq::new(rows.len(), |f: int| (f as usize, row_support(rows[f], rows[f].len() as int)))
}

/// The variable lists among the first `w` columns of a dense matrix: every column with a
/// nonzero entry, with its nonzero rows.
pub open spec fn array_variables(rows: Seq<Seq<u8>>, w: int) -> Seq<(usize, Seq<usize>)>
    decreases w,
{
    if w <= 0 {
        Seq::empty()
    } else {
        let col = column_support(rows, w - 1, rows.len() as int);
        if col.len() > 0 {
            array_variables(rows, w - 1).push(((w - 1) as usize, col))
        } else {
            array_variables(rows, w - 1)
        }
    }
}

/// The length of the longest row.
pub open spec fn max_width(rows: Seq<Seq<u8>>, m: int) -> int
    decreases m,
{
    if m <= 0 {
        0
    } else {
        let w = max_width(rows, m - 1);
        if rows[m - 1].len() > w {
            rows[m - 1].len() as int
        } else {
            w
        }
    }
}

/// The rows of a dense matrix as sequences.
pub open spec fn rows_view(rows: Seq<Vec<u8>>) -> Seq<Seq<u8>> {
    rows.map_values(|r: Vec<u8>| r@)
}

proof fn lemma_array_variables_keys(rows: Seq<Seq<u8>>, w: int)
    requires
        w <= usize::MAX,
    ensures
        keys_increasing(array_variables(rows, w)),
        forall|i: int| 0 <= i < array_variables(rows, w).len() ==> #[trigger] array_variables(rows, w)[i].0 < w,
    decreases w,
{
    if w > 0 {
        lemma_array_variables_keys(rows, w - 1);
        let prev = array_variables(rows, w - 1);
        let col = column_support(rows, w - 1, rows.len() as int);
        if col.len() > 0 {
            let cur = prev.push(((w - 1) as usize, col));
            assert forall|i: int, j: int| 0 <= i < j < cur.len() implies cur[i].0 < cur[j].0 by {
                if j < prev.len() {
                    assert(prev[i].0 < prev[j].0);
                } else {
                    assert(prev[i].0 < w - 1);
                }
            }
            assert forall|i: int| 0 <= i < cur.len() implies #[trigger] cur[i].0 < w by {
                if i < prev.len() {
                    assert(prev[i].0 < w - 1);
                }
            }
        }
    }
}

proof fn lemma_max_width(rows: Seq<Seq<u8>>, m: int)
    requires
        0 <= m <= rows.len(),
    ensures
        forall|f: int| 0 <= f < m ==> rows[f].len() <= max_width(rows, m),
        max_width(rows, m) >= 0,
        m > 0 ==> exists|f: int| 0 <= f < m && rows[f].len() == max_width(rows, m),
    decreases m,
{
    if m > 0 {
        lemma_max_width(rows, m - 1);
    }
}

/// The nonzero positions of a row.
fn support(row: &Vec<u8>) -> (r: Vec<usize>)
    ensures
        r@ == row_support(row@, row@.len() as int),
{
    let mut r: Vec<usize> = Vec::new();
    let mut i: usize = 0;
    while i < row.len()
        invariant
            i <= row.len(),
            r@ == row_support(row@, i as int),
        decreases row.len() - i,
    {
        if row[i] != 0 {
            r.push(i);
        }
        i = i + 1;
    }
    r
}

impl SparseMatrix {
    /// The sparse form of a dense matrix given by its rows: every row is a factor, and every
    /// column with a nonzero entry is a variable.
    pub fn from_array(rows: &[Vec<u8>]) -> (r: Self)
        ensures
            r.factor_entries() == array_factors(rows_view(rows@)),
            r.variable_entries() == array_variables(rows_view(rows@), max_width(rows_view(rows@), rows@.len() as int)),
    {
        let ghost rv = rows_view(rows@);
        let mut factors: Vec<(usize, Vec<usize>)> = Vec::new();
        let mut width: usize = 0;
        let mut f: usize = 0;
        while f < rows.len()
            invariant
                f <= rows.len(),
                rv == rows_view(rows@),
                width as int == max_width(rv, f as int),
                entries_view(factors@) == array_factors(rv).subrange(0, f as int),
            decreases rows.len() - f,
        {
            let s = support(&rows[f]);
            let ghost before = entries_view(factors@);
            if rows[f].len() > width {
                width = rows[f].len();
            }
            factors.push((f, s));
            proof {
                assert(entries_view(factors@) =~= before.push((f, s@)));
                assert(array_factors(rv).subrange(0, f + 1) =~= array_factors(rv).subrange(0, f as int).push(
                    array_factors(rv)[f as int],
                ));
            }
            f = f + 1;
        }
        proof {
            assert(array_factors(rv).subrange(0, rows.len() as int) =~= array_factors(rv));
        }
        let mut variables: Vec<(usize, Vec<usize>)> = Vec::new();
        let mut v: usize = 0;
        while v < width
            invariant
                v <= width,
                rv == rows_view(rows@),
                entries_view(variables@) == array_variables(rv, v as int),
            decreases width - v,
        {
            let mut col: Vec<usize> = Vec::new();
            let mut g: usize = 0;
            while g < rows.len()
                invariant
                    g <= rows.len(),
                    rv == rows_view(rows@),
                    col@ == column_support(rv, v as int, g as int),
                decreases rows.len() - g,
            {
                if v < rows[g].len() && rows[g][v] != 0 {
                    col.push(g);
                }
                g = g + 1;
            }
            let ghost before = entries_view(variables@);
            if col.len() > 0 {
                variables.push((v, col));
                proof {
                    assert(entries_view(variables@) =~= before.push((v, col@)));
                }
            }
            v = v + 1;
        }
        proof {
            lemma_array_variables_keys(rv, width as int);
            assert forall|i: int, j: int| 0 <= i < j < array_factors(rv).len() implies array_factors(rv)[i].0
                < array_factors(rv)[j].0 by {}
        }
        SparseMatrix { factors, variables }
    }

    /// The neighbours of factor `n`; none when there is no such factor.
    pub fn factor(&self, n: &usize) -> (r: &[usize])
        ensures
            r@ == lookup(self.factor_entries(), *n as int),
    {
        find_entry(&self.factors, *n)
    }

    /// The neighbours of variable `n`; none when there is no such variable.
    pub fn variable(&self, n: &usize) -> (r: &[usize])
        ensures
            r@ == lookup(self.variable_entries(), *n as int),
    {
        find_entry(&self.variables, *n)
    }

    /// The number of factors.
    pub fn factors_len(&self) -> (r: usize)
        ensures
            r == self.factor_entries().len(),
    {
        self.factors.len()
    }

    /// The number of variables.
    pub fn variables_len(&self) -> (r: usize)
        ensures
            r == self.variable_entries().len(),
    {
        self.variables.len()
    }

    /// The factors with their neighbours, by increasing key.
    pub fn iter_factors(&self) -> (r: &[(usize, Vec<usize>)])
        ensures
            entries_view(r@) == self.factor_entries(),
    {
        self.factors.as_slice()
    }

    /// The variables with their neighbours, by increasing key.
    pub fn iter_variables(&self) -> (r: &[(usize, Vec<usize>)])
        ensures
            entries_view(r@) == self.variable_entries(),
    {
        self.variables.as_slice()
    }
}

fn find_entry(es: &Vec<(usize, Vec<usize>)>, k: usize) -> (r: &[usize])
    ensures
        r@ == lookup(entries_view(es@), k as int),
{
    let mut i = es.len();
    proof {
        assert(entries_view(es@).subrange(0, i as int) =~= entries_view(es@));
    }
    while i > 0
        invariant
            i <= es.len(),
            lookup(entries_view(es@), k as int) == lookup(entries_view(es@).subrange(0, i as int), k as int),
        decreases i,
    {
        let ghost sub = entries_view(es@).subrange(0, i as int);
        proof {
            assert(sub.drop_last() =~= entries_view(es@).subrange(0, i - 1));
        }
        if es[i - 1].0 == k {
            return es[i - 1].1.as_slice();
        }
        i = i - 1;
    }
    proof {
        assert(entries_view(es@).subrange(0, 0) =~= Seq::<(usize, Seq<usize>)>::empty());
    }
    &[]
}

/// Neighbour lists keyed `0, 1, ...` in order.
pub open spec fn indexed(b: Seq<Seq<usize>>) -> Seq<(usize, Seq<usize>)> {
    Seq::new(b.len(), |i: int| (i as usize, b[i]))
}

fn to_entries(b: &Vec<Vec<usize>>) -> (r: Vec<(usize, Vec<usize>)>)
    ensures
        entries_view(r@) == indexed(lists_view(b@)),
        keys_increasing(entries_view(r@)),
{
    let mut r: Vec<(usize, Vec<usize>)> = Vec::new();
    let mut i: usize = 0;
    while i < b.len()
        invariant
            i <= b.len(),
            entries_view(r@) == indexed(lists_view(b@)).subrange(0, i as int),
        decreases b.len() - i,
    {
        let ghost before = entries_view(r@);
        let v = b[i].clone();
        r.push((i, v));
        proof {
            assert(entries_view(r@) =~= before.push((i, v@)));
            assert(indexed(lists_view(b@)).subrange(0, i + 1) =~= indexed(lists_view(b@)).subrange(0, i as int).push(
                (i, b@[i as int]@),
            ));
        }
        i = i + 1;
    }
    proof {
        assert(indexed(lists_view(b@)).subrange(0, i as int) =~= indexed(lists_view(b@)));
    }
    r
}

impl SparseMatrix {
    /// Reads a matrix in the alist format; `None` where reading has no defined end, which is
    /// when a neighbour is numbered zero (such as `00`, which is not the padding `0`).
    pub fn try_from_alist_str(src: &str) -> (r: Option<Result<Self, SparseMatrixError>>)
        ensures
            r is None <==> alist_outcome(lines(src.spec_bytes())) is None,
            r matches Some(Ok(_)) <==> alist_outcome(lines(src.spec_bytes())) == Some(AlistStatus::Parsed),
            r matches Some(Ok(m)) ==> alist_outcome(lines(src.spec_bytes())) == Some(AlistStatus::Parsed)
                && m.variable_entries() == indexed(alist_variables(lines(src.spec_bytes())))
                && m.factor_entries() == indexed(alist_factors(lines(src.spec_bytes()))),
            r matches Some(Err(e)) ==> Some(error_status(e)) == alist_outcome(lines(src.spec_bytes())),
    {
        match parse_alist(src.as_bytes()) {
            None => None,
            Some(Err(e)) => Some(Err(e)),
            Some(Ok((v, f))) => {
                let variables = to_entries(&v);
                let factors = to_entries(&f);
                Some(Ok(SparseMatrix { factors, variables }))
            },
        }
    }

    /// Reads a matrix in the alist format.
    pub fn from_alist_str(src: &str) -> (r: Result<Self, SparseMatrixError>)
        requires
            alist_outcome(lines(src.spec_bytes())) is Some,
        ensures
            r is Ok <==> alist_outcome(lines(src.spec_bytes())) == Some(AlistStatus::Parsed),
            r matches Ok(m) ==> m.variable_entries() == indexed(alist_variables(lines(src.spec_bytes())))
                && m.factor_entries() == indexed(alist_factors(lines(src.spec_bytes()))),
            r matches Err(e) ==> Some(error_status(e)) == alist_outcome(lines(src.spec_bytes())),
    {
        match Self::try_from_alist_str(src) {
            Some(r) => r,
            None => Err(SparseMatrixError::FileTooShort),
        }
    }
}

} // verus!
