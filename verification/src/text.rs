//! Splitting text into lines and words, and reading unsigned decimal numbers, byte by byte.

use vstd::prelude::*;

verus! {

/// The position of the first byte `c` in `b` at or after `i`, or `b.len()` when there is none.
pub open spec fn find_byte(b: Seq<u8>, c: u8, i: int) -> int
    decreases b.len() - i,
{
    if i >= b.len() {
        b.len() as int
    } else if b[i] == c {
        i
    } else {
        find_byte(b, c, i + 1)
    }
}

pub proof fn lemma_find_byte(b: Seq<u8>, c: u8, i: int)
    requires
        0 <= i <= b.len(),
    ensures
        i <= find_byte(b, c, i) <= b.len(),
        find_byte(b, c, i) < b.len() ==> b[find_byte(b, c, i)] == c,
        forall|j: int| i <= j < find_byte(b, c, i) ==> b[j] != c,
    decreases b.len() - i,
{
    if i < b.len() && b[i] != c {
        lemma_find_byte(b, c, i + 1);
    }
}

/// The lines of `b` from position `pos` on, as a buffered reader gives them: split at each
/// `\n`, which is dropped with a `\r` just before it; text after the last `\n` is a last line.
pub open spec fn lines_from(b: Seq<u8>, pos: int) -> Seq<Seq<u8>>
    decreases b.len() - pos,
{
    if pos < 0 || pos >= b.len() {
        Seq::empty()
    } else {
        let e = find_byte(b, 10, pos);
        if e < pos || e > b.len() {
            Seq::empty()
        } else {
            let raw = b.subrange(pos, e);
            let line = if e < b.len() && raw.len() > 0 && raw.last() == 13 {
                raw.drop_last()
            } else {
                raw
            };
            if e < b.len() {
                seq![line] + lines_from(b, e + 1)
            } else {
                seq![line]
            }
        }
    }
}

/// The lines of `b`.
pub open spec fn lines(b: Seq<u8>) -> Seq<Seq<u8>> {
    lines_from(b, 0)
}

/// The pieces of `l` from position `pos` on, split at each space: two spaces in a row give an
/// empty piece, and there is always at least one piece.
pub open spec fn words_from(l: Seq<u8>, pos: int) -> Seq<Seq<u8>>
    decreases l.len() - pos,
{
    if pos < 0 || pos > l.len() {
        Seq::empty()
    } else {
        let e = find_byte(l, 32, pos);
        if e < l.len() && e >= pos {
            seq![l.subrange(pos, e)] + words_from(l, e + 1)
        } else {
            seq![l.subrange(pos, l.len() as int)]
        }
    }
}

/// The pieces of `l` split at each space.
pub open spec fn words(l: Seq<u8>) -> Seq<Seq<u8>> {
    words_from(l, 0)
}

/// An ASCII decimal digit.
pub open spec fn is_digit(c: u8) -> bool {
    48 <= c <= 57
}

/// The number written by a string of decimal digits.
pub open spec fn digits_value(t: Seq<u8>) -> nat
    decreases t.len(),
{
    if t.len() == 0 {
        0
    } else {
        digits_value(t.drop_last()) * 10 + (t.last() - 48) as nat
    }
}

/// The digits of an unsigned number: `t` without one leading `+`.
pub open spec fn unsigned_digits(t: Seq<u8>) -> Seq<u8> {
    if t.len() > 0 && t[0] == 43 {
        t.subrange(1, t.len() as int)
    } else {
        t
    }
}

/// The number an unsigned decimal `usize` literal denotes: an optional `+`, then one or more
/// digits, with a value that fits in a `usize`; `None` for anything else.
pub open spec fn parse_usize(t: Seq<u8>) -> Option<usize> {
    let d = unsigned_digits(t);
    if d.len() > 0 && (forall|i: int| 0 <= i < d.len() ==> is_digit(#[trigger] d[i]))
        && digits_value(d) <= usize::MAX {
        Some(digits_value(d) as usize)
    } else {
        None
    }
}

/// The views of a vector of byte strings.
pub open spec fn views(v: Seq<Vec<u8>>) -> Seq<Seq<u8>> {
    v.map_values(|x: Vec<u8>| x@)
}

fn copy_range(b: &[u8], start: usize, end: usize) -> (r: Vec<u8>)
    requires
        start <= end <= b.len(),
    ensures
        r@ == b@.subrange(start as int, end as int),
{
    let mut r: Vec<u8> = Vec::new();
    let mut i = start;
    while i < end
        invariant
            start <= i <= end <= b.len(),
            r@ == b@.subrange(start as int, i as int),
        decreases end - i,
    {
        r.push(b[i]);
        i = i + 1;
        assert(r@ =~= b@.subrange(start as int, i as int));
    }
    r
}

fn find_byte_exec(b: &[u8], c: u8, i: usize) -> (r: usize)
    requires
        i <= b.len(),
    ensures
        r as int == find_byte(b@, c, i as int),
{
    let mut j = i;
    while j < b.len() && b[j] != c
        invariant
            i <= j <= b.len(),
            find_byte(b@, c, j as int) == find_byte(b@, c, i as int),
        decreases b.len() - j,
    {
        j = j + 1;
    }
    j
}

/// The lines of `b`, as a buffered reader gives them.
pub fn split_lines(b: &[u8]) -> (r: Vec<Vec<u8>>)
    ensures
        views(r@) == lines(b@),
{
    let mut r: Vec<Vec<u8>> = Vec::new();
    let mut pos: usize = 0;
    while pos < b.len()
        invariant
            pos <= b.len(),
            views(r@) + lines_from(b@, pos as int) == lines(b@),
        decreases b.len() - pos,
    {
        let e = find_byte_exec(b, 10, pos);
        proof {
            lemma_find_byte(b@, 10, pos as int);
        }
        let mut line = copy_range(b, pos, e);
        let ghost raw = line@;
        if e < b.len() && line.len() > 0 && line[line.len() - 1] == 13 {
            line.pop();
            assert(line@ =~= raw.drop_last());
        }
        let ghost before = views(r@);
        r.push(line);
        proof {
            assert(views(r@) =~= before.push(line@));
            assert(lines_from(b@, pos as int) == seq![line@] + lines_from(b@, e + 1));
            assert(views(r@) + lines_from(b@, e + 1) =~= before + lines_from(b@, pos as int));
        }
        pos = if e < b.len() { e + 1 } else { b.len() };
        proof {
            if e >= b.len() {
                assert(lines_from(b@, e + 1) =~= Seq::<Seq<u8>>::empty());
                assert(lines_from(b@, pos as int) =~= Seq::<Seq<u8>>::empty());
            }
        }
    }
    proof {
        assert(lines_from(b@, pos as int) =~= Seq::<Seq<u8>>::empty());
        assert(views(r@) + Seq::<Seq<u8>>::empty() =~= views(r@));
    }
    r
}

/// The pieces of `l` split at each space.
pub fn split_words(l: &[u8]) -> (r: Vec<Vec<u8>>)
    ensures
        views(r@) == words(l@),
{
    let mut r: Vec<Vec<u8>> = Vec::new();
    let mut pos: usize = 0;
    loop
        invariant
            pos <= l.len(),
            views(r@) + words_from(l@, pos as int) == words(l@),
        decreases l.len() - pos,
    {
        let e = find_byte_exec(l, 32, pos);
        proof {
            lemma_find_byte(l@, 32, pos as int);
        }
        let piece = copy_range(l, pos, e);
        let ghost before = views(r@);
        r.push(piece);
        proof {
            assert(views(r@) =~= before.push(piece@));
        }
        if e < l.len() {
            proof {
                assert(views(r@) + words_from(l@, e + 1) =~= before + words_from(l@, pos as int));
            }
            pos = e + 1;
        } else {
            proof {
                assert(words_from(l@, pos as int) == seq![piece@]);
                assert(views(r@) =~= before + words_from(l@, pos as int));
            }
            return r;
        }
    }
}

proof fn lemma_digits_value_push(t: Seq<u8>, c: u8)
    ensures
        digits_value(t.push(c)) == digits_value(t) * 10 + (c - 48) as nat,
{
    assert(t.push(c).drop_last() =~= t);
}

/// Reads an unsigned decimal `usize` literal.
pub fn parse_usize_exec(t: &[u8]) -> (r: Option<usize>)
    ensures
        r == parse_usize(t@),
{
    let start: usize = if t.len() > 0 && t[0] == 43 { 1 } else { 0 };
    let ghost d = unsigned_digits(t@);
    proof {
        assert(d =~= t@.subrange(start as int, t.len() as int));
    }
    if start >= t.len() {
        return None;
    }
    let mut acc: usize = 0;
    let mut i: usize = start;
    while i < t.len()
        invariant
            start <= i <= t.len(),
            d == unsigned_digits(t@),
            d == t@.subrange(start as int, t.len() as int),
            forall|j: int| 0 <= j < i - start ==> is_digit(#[trigger] d[j]),
            acc as int == digits_value(d.subrange(0, i - start)),
        decreases t.len() - i,
    {
        let c = t[i];
        if c < 48 || c > 57 {
            proof {
                assert(d[i - start] == c);
                assert(!is_digit(d[i - start]));
                assert(!(forall|j: int| 0 <= j < d.len() ==> is_digit(#[trigger] d[j])));
                assert(parse_usize(t@) is None);
            }
            return None;
        }
        let digit = (c - 48) as usize;
        proof {
            assert(d.subrange(0, i + 1 - start) =~= d.subrange(0, i - start).push(c));
            lemma_digits_value_push(d.subrange(0, i - start), c);
        }
        if acc > (usize::MAX - digit) / 10 {
            proof {
                assert(digits_value(d.subrange(0, i + 1 - start)) > usize::MAX) by (nonlinear_arith)
                    requires
                        digits_value(d.subrange(0, i + 1 - start)) == acc * 10 + digit,
                        acc > (usize::MAX - digit) / 10,
                        digit <= 9,
                ;
                if forall|j: int| 0 <= j < d.len() ==> is_digit(#[trigger] d[j]) {
                    lemma_digits_value_prefix(d, i + 1 - start);
                }
            }
            return None;
        }
        acc = acc * 10 + digit;
        i = i + 1;
    }
    proof {
        assert(d.subrange(0, d.len() as int) =~= d);
    }
    Some(acc)
}

proof fn lemma_digits_value_prefix(d: Seq<u8>, k: int)
    requires
        0 <= k <= d.len(),
        forall|j: int| 0 <= j < d.len() ==> is_digit(#[trigger] d[j]),
    ensures
        digits_value(d.subrange(0, k)) <= digits_value(d),
    decreases d.len() - k,
{
    if k < d.len() {
        lemma_digits_value_prefix(d, k + 1);
        let x = d.subrange(0, k);
        assert(d.subrange(0, k + 1).drop_last() =~= x);
        assert(d.subrange(0, k + 1).last() == d[k]);
        assert(is_digit(d[k]));
        let v = digits_value(x);
        assert(v * 10 + (d[k] - 48) as nat >= v) by (nonlinear_arith)
            requires
                v >= 0,
                48 <= d[k] <= 57,
        ;
    } else {
        assert(d.subrange(0, k) =~= d);
    }
}

} // verus!
