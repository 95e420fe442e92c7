//! The alist format of sparse binary matrices.
//!
//! Line 1 holds the number of variables and of factors, line 2 the largest number of
//! neighbours of a variable and of a factor, lines 3 and 4 the number of neighbours of each
//! variable and of each factor; then one line per variable and one per factor lists its
//! neighbours, numbered from one, with `0` as padding. Numbers are separated by single spaces.

use vstd::prelude::*;
use vstd::string::StringSliceAdditionalSpecFns;

use crate::sparse_matrix::SparseMatrixError;
use crate::text::{lines, parse_usize, parse_usize_exec, split_lines, split_words, views, words};

verus! {

/// How reading an alist description ends.
#[derive(Debug, PartialEq, Eq, Clone, Copy, Structural)]
pub enum AlistStatus {
    Parsed,
    BadAListFile,
    ConversionError,
    ExpectedTuple,
    FileTooShort,
    FileTooLong,
}

/// The number a word denotes, zero when it is not a number.
pub open spec fn number(w: Seq<u8>) -> usize {
    match parse_usize(w) {
        Some(x) => x,
        None => 0,
    }
}

/// Every word is a number.
pub open spec fn all_numbers(ws: Seq<Seq<u8>>) -> bool {
    forall|i: int| 0 <= i < ws.len() ==> #[trigger] parse_usize(ws[i]) is Some
}

/// The numbers the words denote.
pub open spec fn numbers(ws: Seq<Seq<u8>>) -> Seq<usize> {
    Seq::new(ws.len(), |i: int| number(ws[i]))
}

/// Reading a line of numbers: `ConversionError` unless every word is a number.
pub open spec fn list_status(line: Seq<u8>) -> AlistStatus {
    if all_numbers(words(line)) {
        AlistStatus::Parsed
    } else {
        AlistStatus::ConversionError
    }
}

/// Reading a line of exactly two numbers.
pub open spec fn tuple_status(line: Seq<u8>) -> AlistStatus {
    if words(line).len() != 2 {
        AlistStatus::ExpectedTuple
    } else {
        list_status(line)
    }
}

/// The words other than the padding `0`.
pub open spec fn nonzero_words(ws: Seq<Seq<u8>>) -> Seq<Seq<u8>>
    decreases ws.len(),
{
    if ws.len() == 0 {
        Seq::empty()
    } else if ws.last() == seq![48u8] {
        nonzero_words(ws.drop_last())
    } else {
        nonzero_words(ws.drop_last()).push(ws.last())
    }
}

/// Reading the first `k` neighbour numbers, numbered from one, in turn: `ConversionError` at
/// the first word that is not a number; `None` when a number read before that is zero, which
/// has no neighbour index.
pub open spec fn neighbours_status(ws: Seq<Seq<u8>>, k: int) -> Option<AlistStatus>
    decreases k,
{
    if k <= 0 {
        Some(AlistStatus::Parsed)
    } else {
        let prev = neighbours_status(ws, k - 1);
        if prev != Some(AlistStatus::Parsed) {
            prev
        } else {
            match parse_usize(ws[k - 1]) {
                None => Some(AlistStatus::ConversionError),
                Some(x) => if x == 0 {
                    None
                } else {
                    Some(AlistStatus::Parsed)
                },
            }
        }
    }
}

/// Reading one neighbour line.
pub open spec fn line_status(line: Seq<u8>) -> Option<AlistStatus> {
    let ws = nonzero_words(words(line));
    neighbours_status(ws, ws.len() as int)
}

/// The neighbours a line lists, as indices from zero.
pub open spec fn neighbours(line: Seq<u8>) -> Seq<usize> {
    let ws = nonzero_words(words(line));
    Seq::new(ws.len(), |i: int| (number(ws[i]) - 1) as usize)
}

/// Reading the `k` neighbour lines from line `s` on, in turn, up to the first that fails.
pub open spec fn block_status(ls: Seq<Seq<u8>>, s: int, k: int) -> Option<AlistStatus>
    decreases k,
{
    if k <= 0 {
        Some(AlistStatus::Parsed)
    } else {
        let prev = block_status(ls, s, k - 1);
        if prev != Some(AlistStatus::Parsed) {
            prev
        } else {
            line_status(ls[s + k - 1])
        }
    }
}

/// Reading `n` neighbour lines from line `s` on: the lines that are there are read first,
/// then `FileTooShort` when there are fewer than `n`.
pub open spec fn block_outcome(ls: Seq<Seq<u8>>, s: int, n: int) -> Option<AlistStatus> {
    let avail = if ls.len() - s < n {
        ls.len() - s
    } else {
        n
    };
    let st = block_status(ls, s, avail);
    if st != Some(AlistStatus::Parsed) {
        st
    } else if avail < n {
        Some(AlistStatus::FileTooShort)
    } else {
        Some(AlistStatus::Parsed)
    }
}

/// The neighbour lists of the `n` lines from line `s` on.
pub open spec fn block(ls: Seq<Seq<u8>>, s: int, n: int) -> Seq<Seq<usize>> {
    Seq::new(n as nat, |i: int| neighbours(ls[s + i]))
}

/// The number of neighbours of each list.
pub open spec fn weights(b: Seq<Seq<usize>>) -> Seq<usize> {
    Seq::new(b.len(), |i: int| b[i].len() as usize)
}

/// The largest of the first `k` numbers.
pub open spec fn seq_max(xs: Seq<usize>, k: int) -> int
    decreases k,
{
    if k <= 0 {
        0
    } else {
        let m = seq_max(xs, k - 1);
        if k == 1 || xs[k - 1] > m {
            xs[k - 1] as int
        } else {
            m
        }
    }
}

/// Checking one block of neighbour lists read from line `s`, with `n` lists, against the
/// expected numbers of neighbours `expected` and their largest value `max`. A block without
/// lists is malformed: the largest number of neighbours of no list is undefined.
pub open spec fn check_block(ls: Seq<Seq<u8>>, s: int, n: int, expected: Seq<usize>, max: int) -> Option<AlistStatus> {
    let st = block_outcome(ls, s, n);
    if st != Some(AlistStatus::Parsed) {
        st
    } else if n == 0 {
        Some(AlistStatus::BadAListFile)
    } else if expected != weights(block(ls, s, n)) {
        Some(AlistStatus::BadAListFile)
    } else if seq_max(weights(block(ls, s, n)), n) != max {
        Some(AlistStatus::BadAListFile)
    } else {
        Some(AlistStatus::Parsed)
    }
}

/// The number of variables and of factors declared on the first line.
pub open spec fn declared(ls: Seq<Seq<u8>>) -> (int, int) {
    (number(words(ls[0])[0]) as int, number(words(ls[0])[1]) as int)
}

/// How reading the alist lines `ls` ends; `None` where reading has no defined end.
pub open spec fn alist_outcome(ls: Seq<Seq<u8>>) -> Option<AlistStatus> {
    if ls.len() < 1 {
        Some(AlistStatus::FileTooShort)
    } else if tuple_status(ls[0]) != AlistStatus::Parsed {
        Some(tuple_status(ls[0]))
    } else if ls.len() < 2 {
        Some(AlistStatus::FileTooShort)
    } else if tuple_status(ls[1]) != AlistStatus::Parsed {
        Some(tuple_status(ls[1]))
    } else if ls.len() < 3 {
        Some(AlistStatus::FileTooShort)
    } else if list_status(ls[2]) != AlistStatus::Parsed {
        Some(list_status(ls[2]))
    } else if ls.len() < 4 {
        Some(AlistStatus::FileTooShort)
    } else if list_status(ls[3]) != AlistStatus::Parsed {
        Some(list_status(ls[3]))
    } else {
        let (nv, nf) = declared(ls);
        let maxv = number(words(ls[1])[0]) as int;
        let maxf = number(words(ls[1])[1]) as int;
        let ev = numbers(words(ls[2]));
        let ef = numbers(words(ls[3]));
        let vs = check_block(ls, 4, nv, ev, maxv);
        if vs != Some(AlistStatus::Parsed) {
            vs
        } else {
            let fs = check_block(ls, 4 + nv, nf, ef, maxf);
            if fs != Some(AlistStatus::Parsed) {
                fs
            } else if ls.len() > 4 + nv + nf {
                Some(AlistStatus::FileTooLong)
            } else {
                Some(AlistStatus::Parsed)
            }
        }
    }
}

/// The variable lists of an alist description that reads without error.
pub open spec fn alist_variables(ls: Seq<Seq<u8>>) -> Seq<Seq<usize>> {
    block(ls, 4, declared(ls).0)
}

/// The factor lists of an alist description that reads without error.
pub open spec fn alist_factors(ls: Seq<Seq<u8>>) -> Seq<Seq<usize>> {
    block(ls, 4 + declared(ls).0, declared(ls).1)
}

/// The kind of an error of reading; an error of input or output is not one of reading.
pub open spec fn error_status(e: SparseMatrixError) -> AlistStatus {
    match e {
        SparseMatrixError::BadAListFile(_) => AlistStatus::BadAListFile,
        SparseMatrixError::ConversionError(_) => AlistStatus::ConversionError,
        SparseMatrixError::ExpectedTuple(_) => AlistStatus::ExpectedTuple,
        SparseMatrixError::FileTooShort => AlistStatus::FileTooShort,
        SparseMatrixError::FileTooLong => AlistStatus::FileTooLong,
        SparseMatrixError::IOError(_) => AlistStatus::Parsed,
    }
}

/// The neighbour lists as sequences.
pub open spec fn lists_view(b: Seq<Vec<usize>>) -> Seq<Seq<usize>> {
    b.map_values(|x: Vec<usize>| x@)
}

/// `std::str::from_utf8`: the text whose UTF-8 encoding is `bytes`, exactly when they are
/// valid UTF-8.
#[verifier::external_body]
pub(crate) fn utf8_str(bytes: &[u8]) -> (r: Option<&str>)
    ensures
        r is Some <==> vstd::utf8::valid_utf8(bytes@),
        r matches Some(s) ==> s.spec_bytes() == bytes@,
{
    std::str::from_utf8(bytes).ok()
}

/// The text of some bytes of the input, for error messages: the text they encode where
/// they are valid UTF-8, else the empty text.
fn text_of(bytes: &[u8]) -> (r: String)
    ensures
        vstd::utf8::valid_utf8(bytes@) ==> vstd::utf8::encode_utf8(r@) == bytes@,
        !vstd::utf8::valid_utf8(bytes@) ==> r@ == Seq::<char>::empty(),
{
    match utf8_str(bytes) {
        Some(s) => s.to_owned(),
        None => String::new(),
    }
}

fn message(text: &str) -> (r: String)
    ensures
        r@ == text@,
{
    text.to_owned()
}

proof fn lemma_neighbours_status_sticks(ws: Seq<Seq<u8>>, k1: int, k2: int)
    requires
        0 <= k1 <= k2,
        neighbours_status(ws, k1) != Some(AlistStatus::Parsed),
    ensures
        neighbours_status(ws, k2) == neighbours_status(ws, k1),
    decreases k2 - k1,
{
    if k1 < k2 {
        lemma_neighbours_status_sticks(ws, k1, k2 - 1);
    }
}

proof fn lemma_block_status_sticks(ls: Seq<Seq<u8>>, s: int, k1: int, k2: int)
    requires
        0 <= k1 <= k2,
        block_status(ls, s, k1) != Some(AlistStatus::Parsed),
    ensures
        block_status(ls, s, k2) == block_status(ls, s, k1),
    decreases k2 - k1,
{
    if k1 < k2 {
        lemma_block_status_sticks(ls, s, k1, k2 - 1);
    }
}

/// Reads every word as a number.
fn read_numbers(ws: &Vec<Vec<u8>>) -> (r: Result<Vec<usize>, SparseMatrixError>)
    ensures
        r is Ok <==> all_numbers(views(ws@)),
        r matches Ok(v) ==> v@ == numbers(views(ws@)),
        r matches Err(e) ==> error_status(e) == AlistStatus::ConversionError,
{
    let ghost wv = views(ws@);
    let mut out: Vec<usize> = Vec::new();
    let mut i: usize = 0;
    while i < ws.len()
        invariant
            i <= ws.len(),
            wv == views(ws@),
            out@ == numbers(wv).subrange(0, i as int),
            forall|j: int| 0 <= j < i ==> #[trigger] parse_usize(wv[j]) is Some,
        decreases ws.len() - i,
    {
        match parse_usize_exec(ws[i].as_slice()) {
            None => {
                proof {
                    assert(wv[i as int] == ws@[i as int]@);
                }
                return Err(SparseMatrixError::ConversionError(text_of(ws[i].as_slice())));
            },
            Some(x) => {
                proof {
                    assert(wv[i as int] == ws@[i as int]@);
                    assert(numbers(wv).subrange(0, i + 1) =~= numbers(wv).subrange(0, i as int).push(x));
                }
                out.push(x);
            },
        }
        i = i + 1;
    }
    proof {
        assert(numbers(wv).subrange(0, i as int) =~= numbers(wv));
    }
    Ok(out)
}

/// Reads a line of exactly two numbers.
fn read_tuple(line: &Vec<u8>) -> (r: Result<(usize, usize), SparseMatrixError>)
    ensures
        r is Ok <==> tuple_status(line@) == AlistStatus::Parsed,
        r matches Ok((a, b)) ==> a == number(words(line@)[0]) && b == number(words(line@)[1]),
        r matches Err(e) ==> error_status(e) == tuple_status(line@),
{
    let ws = split_words(line.as_slice());
    if ws.len() != 2 {
        return Err(SparseMatrixError::ExpectedTuple(text_of(line.as_slice())));
    }
    let v = read_numbers(&ws)?;
    Ok((v[0], v[1]))
}

/// Reads a line of numbers.
fn read_vec(line: &Vec<u8>) -> (r: Result<Vec<usize>, SparseMatrixError>)
    ensures
        r is Ok <==> list_status(line@) == AlistStatus::Parsed,
        r matches Ok(v) ==> v@ == numbers(words(line@)),
        r matches Err(e) ==> error_status(e) == list_status(line@),
{
    let ws = split_words(line.as_slice());
    read_numbers(&ws)
}

/// Reads a line of neighbours numbered from one, skipping the padding `0`; `None` when a
/// neighbour is numbered zero.
fn read_neighbours(line: &Vec<u8>) -> (r: Option<Result<Vec<usize>, SparseMatrixError>>)
    ensures
        r is None <==> line_status(line@) is None,
        r matches Some(Ok(_)) <==> line_status(line@) == Some(AlistStatus::Parsed),
        r matches Some(Ok(v)) ==> line_status(line@) == Some(AlistStatus::Parsed) && v@ == neighbours(line@),
        r matches Some(Err(e)) ==> Some(error_status(e)) == line_status(line@),
{
    let ws = split_words(line.as_slice());
    let ghost wv = views(ws@);
    let mut kept: Vec<Vec<u8>> = Vec::new();
    let mut i: usize = 0;
    while i < ws.len()
        invariant
            i <= ws.len(),
            wv == views(ws@),
            views(kept@) == nonzero_words(wv.subrange(0, i as int)),
        decreases ws.len() - i,
    {
        let w = &ws[i];
        let is_pad = w.len() == 1 && w[0] == 48;
        proof {
            assert(wv.subrange(0, i + 1).drop_last() =~= wv.subrange(0, i as int));
            assert(wv[i as int] == w@);
            if is_pad {
                assert(w@ =~= seq![48u8]);
            } else {
                assert(w@ != seq![48u8]) by {
                    if w@ == seq![48u8] {
                        assert(w@.len() == 1 && w@[0] == 48);
                    }
                }
            }
        }
        if !is_pad {
            let ghost before = views(kept@);
            kept.push(ws[i].clone());
            proof {
                assert(views(kept@) =~= before.push(wv[i as int]));
            }
        }
        i = i + 1;
    }
    proof {
        assert(wv.subrange(0, i as int) =~= wv);
    }
    let ghost kv = views(kept@);
    let mut out: Vec<usize> = Vec::new();
    let mut j: usize = 0;
    while j < kept.len()
        invariant
            j <= kept.len(),
            kv == views(kept@),
            kv == nonzero_words(words(line@)),
            neighbours_status(kv, j as int) == Some(AlistStatus::Parsed),
            out@ == neighbours(line@).subrange(0, j as int),
        decreases kept.len() - j,
    {
        proof {
            assert(kv[j as int] == kept@[j as int]@);
        }
        match parse_usize_exec(kept[j].as_slice()) {
            None => {
                proof {
                    lemma_neighbours_status_sticks(kv, j + 1, kv.len() as int);
                }
                return Some(Err(SparseMatrixError::ConversionError(text_of(kept[j].as_slice()))));
            },
            Some(x) => {
                if x == 0 {
                    proof {
                        lemma_neighbours_status_sticks(kv, j + 1, kv.len() as int);
                    }
                    return None;
                }
                proof {
                    assert(neighbours(line@).subrange(0, j + 1) =~= neighbours(line@).subrange(0, j as int).push(
                        (x - 1) as usize,
                    ));
                }
                out.push(x - 1);
            },
        }
        j = j + 1;
    }
    proof {
        assert(neighbours(line@).subrange(0, j as int) =~= neighbours(line@));
    }
    Some(Ok(out))
}

/// Reads the `n` neighbour lines from line `s` on; `None` when a neighbour is numbered zero.
fn populate(ls: &Vec<Vec<u8>>, s: usize, n: usize) -> (r: Option<Result<Vec<Vec<usize>>, SparseMatrixError>>)
    requires
        s <= ls.len(),
    ensures
        r is None <==> block_outcome(views(ls@), s as int, n as int) is None,
        r matches Some(Ok(_)) <==> block_outcome(views(ls@), s as int, n as int) == Some(AlistStatus::Parsed),
        r matches Some(Ok(b)) ==> block_outcome(views(ls@), s as int, n as int) == Some(AlistStatus::Parsed)
            && lists_view(b@) == block(views(ls@), s as int, n as int),
        r matches Some(Err(e)) ==> Some(error_status(e)) == block_outcome(views(ls@), s as int, n as int),
{
    let ghost lv = views(ls@);
    let avail: usize = if ls.len() - s < n { ls.len() - s } else { n };
    let mut out: Vec<Vec<usize>> = Vec::new();
    let mut k: usize = 0;
    while k < avail
        invariant
            k <= avail,
            s + avail <= ls.len(),
            avail <= n,
            avail == (if ls.len() - s < n { ls.len() - s } else { n as int }),
            lv == views(ls@),
            block_status(lv, s as int, k as int) == Some(AlistStatus::Parsed),
            lists_view(out@) == block(lv, s as int, k as int),
        decreases avail - k,
    {
        proof {
            assert(lv[s + k] == ls@[s + k]@);
            if line_status(lv[s + k]) != Some(AlistStatus::Parsed) {
                lemma_block_status_sticks(lv, s as int, k + 1, avail as int);
            }
        }
        let v = read_neighbours(&ls[s + k]);
        match v {
            None => {
                proof {
                    lemma_block_status_sticks(lv, s as int, k + 1, avail as int);
                }
                return None;
            },
            Some(Err(e)) => {
                proof {
                    lemma_block_status_sticks(lv, s as int, k + 1, avail as int);
                }
                return Some(Err(e));
            },
            Some(Ok(v)) => {
                let ghost before = lists_view(out@);
                out.push(v);
                proof {
                    assert(lists_view(out@) =~= before.push(v@));
                    assert(block(lv, s as int, k + 1) =~= block(lv, s as int, k as int).push(neighbours(lv[s + k])));
                }
            },
        }
        k = k + 1;
    }
    if avail < n {
        return Some(Err(SparseMatrixError::FileTooShort));
    }
    Some(Ok(out))
}

/// Checks one block of neighbour lists against the expected numbers of neighbours and their
/// largest value.
fn check_weights(b: &Vec<Vec<usize>>, expected: &Vec<usize>, max: usize, variables: bool) -> (r: Result<(), SparseMatrixError>)
    requires
        b.len() > 0,
    ensures
        r is Ok <==> (expected@ == weights(lists_view(b@)) && seq_max(weights(lists_view(b@)), b.len() as int) == max),
        r matches Err(e) ==> error_status(e) == AlistStatus::BadAListFile,
{
    let ghost wv = weights(lists_view(b@));
    let mut actual: Vec<usize> = Vec::new();
    let mut largest: usize = 0;
    let mut i: usize = 0;
    while i < b.len()
        invariant
            i <= b.len(),
            wv == weights(lists_view(b@)),
            actual@ == wv.subrange(0, i as int),
            largest as int == seq_max(wv, i as int),
        decreases b.len() - i,
    {
        let w = b[i].len();
        proof {
            assert(wv[i as int] == w);
            assert(actual@.push(w) =~= wv.subrange(0, i + 1));
        }
        if i == 0 || w > largest {
            largest = w;
        }
        actual.push(w);
        i = i + 1;
    }
    proof {
        assert(wv.subrange(0, i as int) =~= wv);
    }
    let mut same = actual.len() == expected.len();
    let mut j: usize = 0;
    while same && j < actual.len()
        invariant
            j <= actual.len(),
            actual@ == wv,
            same ==> actual.len() == expected.len(),
            same ==> forall|t: int| 0 <= t < j ==> actual@[t] == expected@[t],
            !same ==> actual@ != expected@,
        decreases actual.len() - j,
    {
        if actual[j] != expected[j] {
            same = false;
        }
        j = j + 1;
    }
    proof {
        if same {
            assert(actual@ =~= expected@);
        }
    }
    if !same {
        if variables {
            return Err(SparseMatrixError::BadAListFile(message("variable weights do not match the variable weights distribution found")));
        } else {
            return Err(SparseMatrixError::BadAListFile(message("factor weights do not match the factor weights distribution found")));
        }
    }
    if largest != max {
        if variables {
            return Err(SparseMatrixError::BadAListFile(message("unexpected largest number of variable neighbours")));
        } else {
            return Err(SparseMatrixError::BadAListFile(message("unexpected largest number of factor neighbours")));
        }
    }
    Ok(())
}

/// Reads an alist description: the neighbour lists of the variables and of the factors;
/// `None` where reading has no defined end (`alist_outcome` is `None`).
pub fn parse_alist(b: &[u8]) -> (r: Option<Result<(Vec<Vec<usize>>, Vec<Vec<usize>>), SparseMatrixError>>)
    ensures
        r is None <==> alist_outcome(lines(b@)) is None,
        r matches Some(Ok(_)) <==> alist_outcome(lines(b@)) == Some(AlistStatus::Parsed),
        r matches Some(Ok((v, f))) ==> alist_outcome(lines(b@)) == Some(AlistStatus::Parsed)
            && lists_view(v@) == alist_variables(lines(b@)) && lists_view(f@) == alist_factors(lines(b@)),
        r matches Some(Err(e)) ==> Some(error_status(e)) == alist_outcome(lines(b@)),
{
    let ls = split_lines(b);
    let ghost lv = views(ls@);
    proof {
        assert(lv == lines(b@));
    }
    if ls.len() < 1 {
        return Some(Err(SparseMatrixError::FileTooShort));
    }
    proof {
        assert(lv[0] == ls@[0]@);
    }
    let (nv, nf) = match read_tuple(&ls[0]) {
        Ok(t) => t,
        Err(e) => return Some(Err(e)),
    };
    if ls.len() < 2 {
        return Some(Err(SparseMatrixError::FileTooShort));
    }
    proof {
        assert(lv[1] == ls@[1]@);
    }
    let (maxv, maxf) = match read_tuple(&ls[1]) {
        Ok(t) => t,
        Err(e) => return Some(Err(e)),
    };
    if ls.len() < 3 {
        return Some(Err(SparseMatrixError::FileTooShort));
    }
    proof {
        assert(lv[2] == ls@[2]@);
    }
    let ev = match read_vec(&ls[2]) {
        Ok(v) => v,
        Err(e) => return Some(Err(e)),
    };
    if ls.len() < 4 {
        return Some(Err(SparseMatrixError::FileTooShort));
    }
    proof {
        assert(lv[3] == ls@[3]@);
    }
    let ef = match read_vec(&ls[3]) {
        Ok(v) => v,
        Err(e) => return Some(Err(e)),
    };
    let variables = match populate(&ls, 4, nv) {
        None => return None,
        Some(Err(e)) => return Some(Err(e)),
        Some(Ok(v)) => v,
    };
    if nv == 0 {
        return Some(Err(SparseMatrixError::BadAListFile(message("no variable neighbour lists"))));
    }
    if let Err(e) = check_weights(&variables, &ev, maxv, true) {
        return Some(Err(e));
    }
    let fs: usize = if nv <= ls.len() - 4 { 4 + nv } else { ls.len() };
    proof {
        if nv > ls.len() - 4 {
            assert(block_outcome(lv, 4, nv as int) == Some(AlistStatus::FileTooShort));
            assert(false);
        }
    }
    let factors = match populate(&ls, fs, nf) {
        None => return None,
        Some(Err(e)) => return Some(Err(e)),
        Some(Ok(f)) => f,
    };
    if nf == 0 {
        return Some(Err(SparseMatrixError::BadAListFile(message("no factor neighbour lists"))));
    }
    if let Err(e) = check_weights(&factors, &ef, maxf, false) {
        return Some(Err(e));
    }
    if ls.len() - fs > nf {
        return Some(Err(SparseMatrixError::FileTooLong));
    }
    Some(Ok((variables, factors)))
}

} // verus!
