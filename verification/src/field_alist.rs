//! Reading a sparse matrix over a finite field from its description in the alist format: a
//! header with the numbers of variables and factors and the field's order, the field built
//! on the first irreducible polynomial, and for each factor the pairs of a column (counted
//! from one) and the power of the field's first primitive element found there.

use vstd::prelude::*;
use vstd::string::StringSliceAdditionalSpecFns;
use vstd::utf8::{decode_utf8, valid_utf8};

use vstd::arithmetic::div_mod::{lemma_fundamental_div_mod, lemma_mod_multiples_basic};
use vstd::arithmetic::power::{lemma_pow0, lemma_pow1, lemma_pow_adds, lemma_pow_strictly_increases, pow};

use crate::alist::utf8_str;
use crate::arith::{prime_factorization, spec_is_prime};
use crate::polynomial::Polynomial;
use crate::decoder::FactorRow;
use crate::decimal::{append_decimal, decimal};
use crate::finite_field::{field_error_text, is_primitive_elem, primitive_index, FieldElement, FieldError, GF};
use crate::polynomial::{poly_rem, ppow};
use crate::polynomial::rabin_test;
use crate::radix::radix_seq;
use crate::text::{lines, split_lines, views};
use crate::utils::{candidate, find_irreducible, lemma_candidate};

verus! {

/// A whitespace character, as Rust's `char::is_whitespace` counts them (Unicode's
/// `White_Space` property).
pub open spec fn is_white(c: char) -> bool {
    let u = c as u32;
    ||| 9 <= u <= 13
    ||| u == 32
    ||| u == 0x85
    ||| u == 0xA0
    ||| u == 0x1680
    ||| 0x2000 <= u <= 0x200A
    ||| u == 0x2028
    ||| u == 0x2029
    ||| u == 0x202F
    ||| u == 0x205F
    ||| u == 0x3000
}

/// An ASCII whitespace character, as `u8::is_ascii_whitespace` counts them: space, tab, line
/// feed, form feed and carriage return.
pub open spec fn is_ascii_white(c: char) -> bool {
    let u = c as u32;
    u == 32 || u == 9 || u == 10 || u == 12 || u == 13
}

/// A separator of words: ASCII whitespace when `ascii`, any whitespace otherwise.
pub open spec fn is_sep(c: char, ascii: bool) -> bool {
    if ascii {
        is_ascii_white(c)
    } else {
        is_white(c)
    }
}

/// The words of `s` from position `pos` on, the current word having started at `start`:
/// maximal runs of characters that are not separators.
pub open spec fn tokens_from(s: Seq<char>, pos: int, start: int, ascii: bool) -> Seq<Seq<char>>
    decreases s.len() - pos,
{
    if pos >= s.len() {
        if 0 <= start < s.len() {
            seq![s.subrange(start, s.len() as int)]
        } else {
            Seq::empty()
        }
    } else if pos < 0 {
        Seq::empty()
    } else if is_sep(s[pos], ascii) {
        (if start < pos {
            seq![s.subrange(start, pos)]
        } else {
            Seq::empty()
        }) + tokens_from(s, pos + 1, pos + 1, ascii)
    } else {
        tokens_from(s, pos + 1, start, ascii)
    }
}

/// The words of `s`, split at whitespace as `str::split_whitespace` does.
pub open spec fn tokens(s: Seq<char>) -> Seq<Seq<char>> {
    tokens_from(s, 0, 0, false)
}

/// The words of `s`, split at ASCII whitespace as `str::split_ascii_whitespace` does.
pub open spec fn ascii_tokens(s: Seq<char>) -> Seq<Seq<char>> {
    tokens_from(s, 0, 0, true)
}

/// A decimal digit.
pub open spec fn is_dec(c: char) -> bool {
    '0' <= c <= '9'
}

/// The number written by decimal digits.
pub open spec fn dec_value(t: Seq<char>) -> nat
    decreases t.len(),
{
    if t.len() == 0 {
        0
    } else {
        dec_value(t.drop_last()) * 10 + ((t.last() as u32) - 48) as nat
    }
}

/// The digits of an unsigned literal: `t` without one leading `+`.
pub open spec fn digits_of(t: Seq<char>) -> Seq<char> {
    if t.len() > 0 && t[0] == '+' {
        t.subrange(1, t.len() as int)
    } else {
        t
    }
}

/// The number that an unsigned decimal literal up to `max` denotes, as `str::parse` reads
/// one for an unsigned type whose largest value is `max`: an optional `+`, then one or more
/// digits; `None` for anything else.
pub open spec fn parse_bounded(t: Seq<char>, max: int) -> Option<nat> {
    let d = digits_of(t);
    if d.len() > 0 && (forall|i: int| 0 <= i < d.len() ==> is_dec(#[trigger] d[i])) && dec_value(d) <= max {
        Some(dec_value(d))
    } else {
        None
    }
}

/// The views of some strings.
pub open spec fn texts(v: Seq<String>) -> Seq<Seq<char>> {
    v.map_values(|x: String| x@)
}

fn is_sep_exec(c: char, ascii: bool) -> (r: bool)
    ensures
        r == is_sep(c, ascii),
{
    let u = c as u32;
    if ascii {
        u == 32 || u == 9 || u == 10 || u == 12 || u == 13
    } else {
        (9 <= u && u <= 13) || u == 32 || u == 0x85 || u == 0xA0 || u == 0x1680 || (0x2000 <= u && u <= 0x200A)
            || u == 0x2028 || u == 0x2029 || u == 0x202F || u == 0x205F || u == 0x3000
    }
}

/// The words of a line: split at ASCII whitespace when `ascii`, at any whitespace otherwise.
pub fn split_tokens(s: &str, ascii: bool) -> (r: Vec<String>)
    ensures
        texts(r@) == tokens_from(s@, 0, 0, ascii),
{
    let len = s.unicode_len();
    let mut out: Vec<String> = Vec::new();
    let mut start: usize = 0;
    let mut i: usize = 0;
    while i < len
        invariant
            len == s@.len(),
            start <= i <= len,
            texts(out@) + tokens_from(s@, i as int, start as int, ascii) == tokens_from(s@, 0, 0, ascii),
        decreases len - i,
    {
        let c = s.get_char(i);
        if is_sep_exec(c, ascii) {
            let ghost before = texts(out@);
            if start < i {
                let w = s.substring_char(start, i).to_owned();
                out.push(w);
                proof {
                    assert(texts(out@) =~= before.push(s@.subrange(start as int, i as int)));
                    assert(texts(out@) + tokens_from(s@, i + 1, i + 1, ascii) =~= before + tokens_from(
                        s@,
                        i as int,
                        start as int,
                        ascii,
                    ));
                }
            } else {
                proof {
                    assert(tokens_from(s@, i as int, start as int, ascii) =~= tokens_from(s@, i + 1, i + 1, ascii));
                }
            }
            start = i + 1;
        }
        i = i + 1;
    }
    if start < len {
        let ghost before = texts(out@);
        let w = s.substring_char(start, len).to_owned();
        out.push(w);
        proof {
            assert(texts(out@) =~= before.push(s@.subrange(start as int, len as int)));
        }
    } else {
        proof {
            assert(texts(out@) + Seq::<Seq<char>>::empty() =~= texts(out@));
        }
    }
    out
}

proof fn lemma_dec_value_push(t: Seq<char>, c: char)
    ensures
        dec_value(t.push(c)) == dec_value(t) * 10 + ((c as u32) - 48) as nat,
{
    assert(t.push(c).drop_last() =~= t);
}

proof fn lemma_dec_value_prefix(t: Seq<char>, k: int)
    requires
        0 <= k <= t.len(),
        forall|i: int| 0 <= i < t.len() ==> is_dec(#[trigger] t[i]),
    ensures
        dec_value(t.subrange(0, k)) <= dec_value(t),
    decreases t.len() - k,
{
    if k < t.len() {
        lemma_dec_value_prefix(t, k + 1);
        assert(t.subrange(0, k + 1) =~= t.subrange(0, k).push(t[k]));
        lemma_dec_value_push(t.subrange(0, k), t[k]);
    } else {
        assert(t.subrange(0, k) =~= t);
    }
}

/// Reads an unsigned decimal literal up to `max`.
pub fn parse_number(t: &str, max: usize) -> (r: Option<usize>)
    ensures
        r is Some <==> parse_bounded(t@, max as int) is Some,
        r matches Some(v) ==> v as int == parse_bounded(t@, max as int).unwrap(),
{
    let len = t.unicode_len();
    let start: usize = if len > 0 && t.get_char(0) == '+' { 1 } else { 0 };
    let ghost d = digits_of(t@);
    proof {
        assert(d =~= t@.subrange(start as int, len as int));
    }
    if start >= len {
        return None;
    }
    let mut acc: usize = 0;
    let mut i: usize = start;
    while i < len
        invariant
            len == t@.len(),
            start <= i <= len,
            start < len,
            d == digits_of(t@),
            d == t@.subrange(start as int, len as int),
            forall|j: int| 0 <= j < i - start ==> is_dec(#[trigger] d[j]),
            acc as int == dec_value(d.subrange(0, i - start)),
            acc <= max,
        decreases len - i,
    {
        let c = t.get_char(i);
        if !('0' <= c && c <= '9') {
            proof {
                assert(d[i - start] == c);
            }
            return None;
        }
        let digit = (c as u32 - 48) as usize;
        proof {
            assert(d[i - start] == c);
            assert(d.subrange(0, i + 1 - start) =~= d.subrange(0, i - start).push(c));
            lemma_dec_value_push(d.subrange(0, i - start), c);
        }
        if digit > max || acc > (max - digit) / 10 {
            proof {
                if digit <= max {
                    assert(dec_value(d.subrange(0, i + 1 - start)) > max) by (nonlinear_arith)
                        requires
                            dec_value(d.subrange(0, i + 1 - start)) == acc * 10 + digit,
                            acc > (max - digit) / 10,
                            digit <= 9,
                            digit <= max,
                    ;
                } else {
                    assert(dec_value(d.subrange(0, i + 1 - start)) > max);
                }
                if forall|j: int| 0 <= j < d.len() ==> is_dec(#[trigger] d[j]) {
                    lemma_dec_value_prefix(d, i + 1 - start);
                }
            }
            return None;
        }
        proof {
            assert(acc * 10 + digit <= max) by (nonlinear_arith)
                requires
                    acc <= (max - digit) / 10,
                    digit <= max,
            ;
        }
        acc = acc * 10 + digit;
        i = i + 1;
    }
    proof {
        assert(d.subrange(0, i - start) =~= d);
    }
    Some(acc)
}

/// Why a description of a matrix over a finite field could not be read.
#[derive(Debug)]
pub enum ReadError {
    /// A line could not be read: its text is not UTF-8, or reading failed; the reason.
    IOError(String),
    /// The field could not be built.
    FieldError(FieldError),
    /// A word that should be a number is not; the word.
    ParseError(String),
    /// The description ends before all its lines.
    FileTooShort,
    /// A line or a pair that should hold this many numbers does not; its text.
    ExpectedTuple(usize, String),
    /// The field's order is not a power of a prime.
    BadFieldSize(u32),
}

/// The text of a reading error.
pub open spec fn read_error_text(e: ReadError) -> Seq<char> {
    match e {
        ReadError::IOError(m) => "Error during file I/O: "@ + m@,
        ReadError::FieldError(f) => "Error in file settings: "@ + field_error_text(f),
        ReadError::ParseError(w) => "Error parsing file: "@ + w@,
        ReadError::FileTooShort => "Alist file is too short parsing file"@,
        ReadError::ExpectedTuple(n, line) => "Expected a "@ + decimal(n as nat) + " elements, got: "@ + line@,
        ReadError::BadFieldSize(size) => "Field size ("@ + decimal(size as nat) + ") is not a power of a prime"@,
    }
}

impl ReadError {
    /// The text of the error; for a word that is not a number, the word.
    pub fn describe(&self) -> (r: String)
        ensures
            r@ == read_error_text(*self),
    {
        let mut out = String::new();
        match self {
            ReadError::IOError(m) => {
                out.append("Error during file I/O: ");
                out.append(m.as_str());
            },
            ReadError::FieldError(f) => {
                out.append("Error in file settings: ");
                let t = f.describe();
                out.append(t.as_str());
            },
            ReadError::ParseError(w) => {
                out.append("Error parsing file: ");
                out.append(w.as_str());
            },
            ReadError::FileTooShort => {
                out.append("Alist file is too short parsing file");
            },
            ReadError::ExpectedTuple(n, line) => {
                out.append("Expected a ");
                append_decimal(&mut out, *n);
                out.append(" elements, got: ");
                out.append(line.as_str());
            },
            ReadError::BadFieldSize(size) => {
                out.append("Field size (");
                append_decimal(&mut out, *size as usize);
                out.append(") is not a power of a prime");
            },
        }
        proof {
            assert(out@ =~= read_error_text(*self));
        }
        out
    }
}

/// How reading ends: read, or the kind of error.
#[derive(Debug, PartialEq, Eq, Clone, Copy, Structural)]
pub enum ReadStatus {
    Read,
    IOError,
    FieldError,
    ParseError,
    FileTooShort,
    ExpectedTuple(usize),
    BadFieldSize(u32),
}

/// The kind of an error.
pub open spec fn status_of(e: ReadError) -> ReadStatus {
    match e {
        ReadError::IOError(_) => ReadStatus::IOError,
        ReadError::FieldError(_) => ReadStatus::FieldError,
        ReadError::ParseError(_) => ReadStatus::ParseError,
        ReadError::FileTooShort => ReadStatus::FileTooShort,
        ReadError::ExpectedTuple(n, _) => ReadStatus::ExpectedTuple(n),
        ReadError::BadFieldSize(x) => ReadStatus::BadFieldSize(x),
    }
}

/// Line `i` of `ls` can be read: it exists and is UTF-8.
pub open spec fn line_status(ls: Seq<Seq<u8>>, i: int) -> ReadStatus {
    if !(0 <= i < ls.len()) {
        ReadStatus::FileTooShort
    } else if !valid_utf8(ls[i]) {
        ReadStatus::IOError
    } else {
        ReadStatus::Read
    }
}

/// The text of line `i`.
pub open spec fn line_text(ls: Seq<Seq<u8>>, i: int) -> Seq<char> {
    decode_utf8(ls[i])
}

/// Every word is a number up to `max`.
pub open spec fn numbers_ok(ts: Seq<Seq<char>>, max: int) -> bool {
    forall|k: int| 0 <= k < ts.len() ==> parse_bounded(#[trigger] ts[k], max) is Some
}

/// The numbers that the words denote.
pub open spec fn values(ts: Seq<Seq<char>>, max: int) -> Seq<nat> {
    ts.map_values(|t: Seq<char>| parse_bounded(t, max).unwrap())
}

/// A line of numbers up to `max` can be read.
pub open spec fn list_status(t: Seq<char>, max: int) -> ReadStatus {
    if numbers_ok(tokens(t), max) {
        ReadStatus::Read
    } else {
        ReadStatus::ParseError
    }
}

/// A line of exactly `n` numbers up to `max` can be read: the words are read as numbers
/// before they are counted.
pub open spec fn tuple_status(t: Seq<char>, n: int, max: int) -> ReadStatus {
    if !numbers_ok(tokens(t), max) {
        ReadStatus::ParseError
    } else if tokens(t).len() != n {
        ReadStatus::ExpectedTuple(n as usize)
    } else {
        ReadStatus::Read
    }
}

/// The `k` lines from line `s` on can be read; otherwise the first one that cannot.
pub open spec fn skip_status(ls: Seq<Seq<u8>>, s: int, k: int) -> ReadStatus
    decreases k,
{
    if k <= 0 {
        ReadStatus::Read
    } else if skip_status(ls, s, k - 1) != ReadStatus::Read {
        skip_status(ls, s, k - 1)
    } else {
        line_status(ls, s + k - 1)
    }
}

/// Line `i`, as text.
fn read_line(ls: &Vec<Vec<u8>>, i: usize) -> (r: Result<&str, ReadError>)
    ensures
        r is Ok <==> line_status(views(ls@), i as int) == ReadStatus::Read,
        r matches Ok(s) ==> s@ == line_text(views(ls@), i as int),
        r matches Err(e) ==> status_of(e) == line_status(views(ls@), i as int),
{
    if i >= ls.len() {
        return Err(ReadError::FileTooShort);
    }
    proof {
        assert(views(ls@)[i as int] == ls@[i as int]@);
    }
    match utf8_str(ls[i].as_slice()) {
        None => Err(ReadError::IOError("stream did not contain valid UTF-8".to_owned())),
        Some(s) => {
            proof {
                broadcast use vstd::utf8::group_utf8_lib;

                assert(decode_utf8(encode_utf8_of(s)) == s@);
            }
            Ok(s)
        },
    }
}

spec fn encode_utf8_of(s: &str) -> Seq<u8> {
    s.spec_bytes()
}

/// Reads every word of a line as a number up to `max`.
fn read_numbers(line: &str, max: usize) -> (r: Result<Vec<usize>, ReadError>)
    ensures
        r is Ok <==> numbers_ok(tokens(line@), max as int),
        r matches Ok(v) ==> v.len() == tokens(line@).len() && forall|k: int|
            0 <= k < v.len() ==> v[k] as int == #[trigger] values(tokens(line@), max as int)[k],
        r matches Err(e) ==> status_of(e) == ReadStatus::ParseError,
{
    let ws = split_tokens(line, false);
    let ghost ts = tokens(line@);
    let mut out: Vec<usize> = Vec::new();
    let mut k: usize = 0;
    while k < ws.len()
        invariant
            k <= ws.len(),
            texts(ws@) == ts,
            ts == tokens(line@),
            out.len() == k,
            forall|j: int| 0 <= j < k ==> parse_bounded(#[trigger] ts[j], max as int) is Some,
            forall|j: int| 0 <= j < k ==> out[j] as int == #[trigger] values(ts, max as int)[j],
        decreases ws.len() - k,
    {
        proof {
            assert(ts[k as int] == ws@[k as int]@);
        }
        match parse_number(ws[k].as_str(), max) {
            None => {
                return Err(ReadError::ParseError(ws[k].clone()));
            },
            Some(x) => {
                out.push(x);
            },
        }
        k = k + 1;
    }
    Ok(out)
}

/// Reads a line of exactly `n` numbers up to `max`.
fn read_tuple(line: &str, n: usize, max: usize) -> (r: Result<Vec<usize>, ReadError>)
    ensures
        r is Ok <==> tuple_status(line@, n as int, max as int) == ReadStatus::Read,
        r matches Ok(v) ==> v.len() == n && forall|k: int|
            0 <= k < v.len() ==> v[k] as int == #[trigger] values(tokens(line@), max as int)[k],
        r matches Err(e) ==> status_of(e) == tuple_status(line@, n as int, max as int),
{
    let v = read_numbers(line, max)?;
    if v.len() != n {
        return Err(ReadError::ExpectedTuple(n, line.to_owned()));
    }
    Ok(v)
}

/// `p` is the one prime that divides the order `size`.
pub open spec fn single_prime(size: int, p: int) -> bool {
    &&& size >= 2
    &&& spec_is_prime(p)
    &&& size % p == 0
    &&& forall|q: int| spec_is_prime(q) && #[trigger] (size % q) == 0 ==> q == p
}

/// A number of at least two has a prime divisor.
proof fn lemma_prime_divisor(r: int) -> (d: int)
    requires
        r >= 2,
    ensures
        spec_is_prime(d),
        r % d == 0,
        2 <= d <= r,
    decreases r,
{
    if spec_is_prime(r) {
        assert(r % r == 0) by {
            lemma_mod_multiples_basic(1, r);
        }
        r
    } else {
        let e = choose|e: int| 2 <= e < r && #[trigger] (r % e) == 0;
        let d = lemma_prime_divisor(e);
        lemma_fundamental_div_mod(r, e);
        lemma_fundamental_div_mod(e, d);
        let a = r / e;
        let b = e / d;
        assert(r == (b * a) * d) by (nonlinear_arith)
            requires
                r == e * a,
                e == d * b,
        ;
        lemma_mod_multiples_basic(b * a, d);
        d
    }
}

proof fn lemma_small_primes()
    ensures
        spec_is_prime(2),
        spec_is_prime(3),
        spec_is_prime(5),
{
    assert forall|d: int| 2 <= d < 5 implies #[trigger] (5int % d) != 0 by {
        assert(d == 2 || d == 3 || d == 4);
    }
    assert forall|d: int| 2 <= d < 3 implies #[trigger] (3int % d) != 0 by {
        assert(d == 2);
    }
}

/// The prime and the exponent of an order that is a power of one prime, or `None` when the
/// order has no prime divisor or more than one.
fn field_order(size: u32) -> (r: Option<(u32, usize)>)
    ensures
        r is None <==> !(exists|p: int| single_prime(size as int, p)),
        r matches Some((p, n)) ==> {
            &&& single_prime(size as int, p as int)
            &&& n >= 1
            &&& pow(p as int, n as nat) == size
            &&& pow(p as int, n as nat) < u32::MAX - 1
        },
{
    let pf = prime_factorization(size);
    if pf.len() != 1 {
        proof {
            if exists|p: int| single_prime(size as int, p) {
                let p = choose|p: int| single_prime(size as int, p);
                assert(pf@.contains(p as u32));
                let k = choose|k: int| 0 <= k < pf.len() && pf@[k] == p as u32;
                if pf.len() >= 2 {
                    assert(pf[0] as int == p) by {
                        assert(spec_is_prime(pf[0] as int));
                        assert((size as int) % (pf[0] as int) == 0);
                    }
                    assert(pf[1] as int == p) by {
                        assert(spec_is_prime(pf[1] as int));
                        assert((size as int) % (pf[1] as int) == 0);
                    }
                }
            }
        }
        return None;
    }
    let p = pf[0];
    proof {
        assert(spec_is_prime(p as int));
        assert(single_prime(size as int, p as int)) by {
            assert forall|q: int| spec_is_prime(q) && #[trigger] ((size as int) % q) == 0 implies q == p by {
                if q > size as int {
                    vstd::arithmetic::div_mod::lemma_small_mod(size as nat, q as nat);
                }
                assert(pf@.contains(q as u32));
                let k = choose|k: int| 0 <= k < pf.len() && pf@[k] == q as u32;
                assert(k == 0);
            }
        }
    }
    let mut r: u32 = size;
    let mut k: usize = 0;
    proof {
        lemma_pow0(p as int);
    }
    while r % p == 0
        invariant
            p >= 2,
            r >= 1,
            single_prime(size as int, p as int),
            size as int == pow(p as int, k as nat) * r,
            k as int <= pow(p as int, k as nat) <= size,
            k > 0 || r == size,
            pow(p as int, k as nat) >= 1,
        decreases r,
    {
        proof {
            lemma_fundamental_div_mod(r as int, p as int);
            lemma_pow_adds(p as int, k as nat, 1);
            lemma_pow1(p as int);
            let q = (r / p) as int;
            let pk = pow(p as int, k as nat);
            assert(size as int == pow(p as int, (k + 1) as nat) * q) by (nonlinear_arith)
                requires
                    size as int == pk * r,
                    r as int == p * q,
                    pow(p as int, (k + 1) as nat) == pk * p,
            ;
            assert(q >= 1) by (nonlinear_arith)
                requires
                    r as int == p * q,
                    r >= 1,
                    p >= 2,
            ;
            assert(q < r) by (nonlinear_arith)
                requires
                    r as int == p * q,
                    q >= 1,
                    p >= 2,
            ;
            assert(k + 1 <= pow(p as int, (k + 1) as nat) <= size) by (nonlinear_arith)
                requires
                    pow(p as int, (k + 1) as nat) == pk * p,
                    size as int == pow(p as int, (k + 1) as nat) * q,
                    q >= 1,
                    k <= pk,
                    pk >= 1,
                    p >= 2,
            ;
        }
        r = r / p;
        k = k + 1;
    }
    proof {
        if r != 1 {
            let d = lemma_prime_divisor(r as int);
            lemma_fundamental_div_mod(r as int, d);
            let pk = pow(p as int, k as nat);
            assert((size as int) == (pk * (r as int / d)) * d) by (nonlinear_arith)
                requires
                    size as int == pk * r,
                    r as int == d * (r as int / d),
            ;
            lemma_mod_multiples_basic(pk * (r as int / d), d);
            assert(d == p as int);
            assert((r as int) % (p as int) == 0);
            assert(false);
        }
        assert(r == 1);
        assert(pow(p as int, k as nat) == size) by (nonlinear_arith)
            requires
                size as int == pow(p as int, k as nat) * r,
                r == 1,
        ;
        lemma_small_primes();
        if size as int == 0xFFFF_FFFF {
            assert((size as int) % 3 == 0);
            assert((size as int) % 5 == 0);
        }
        if size as int == 0xFFFF_FFFE {
            assert((size as int) % 2 == 0);
            assert(p == 2);
            assert(k >= 2) by {
                if k < 2 {
                    lemma_pow1(2);
                    lemma_pow0(2);
                }
            }
            lemma_pow_adds(2, 2, (k - 2) as nat);
            assert(pow(2, 2) == 4) by {
                vstd::arithmetic::power2::lemma2_to64();
                vstd::arithmetic::power2::lemma_pow2(2);
            }
        }
    }
    Some((p, k))
}

/// The number of pairs on a factor line: its words taken two by two, the last one alone when
/// their count is odd.
pub open spec fn num_pairs(ts: Seq<Seq<char>>) -> int {
    ((ts.len() + 1) / 2) as int
}

/// The number that a word denotes, as a `usize`.
pub open spec fn word_value(t: Seq<char>) -> nat {
    parse_bounded(t, usize::MAX as int).unwrap()
}

/// The column of pair `j`, counted from one.
pub open spec fn pair_column(ts: Seq<Seq<char>>, j: int) -> nat {
    word_value(ts[2 * j])
}

/// The exponent of pair `j`: its second number cut to 32 bits.
pub open spec fn pair_exponent(ts: Seq<Seq<char>>, j: int) -> u32 {
    (word_value(ts[2 * j + 1]) as usize) as u32
}

/// How reading pair `j` ends, where the primitive element has `alen` coefficients: `None`
/// when its column is zero or its power cannot be taken (an exponent of zero, or one whose
/// power would have more than `u32::MAX` coefficients).
pub open spec fn pair_status(ts: Seq<Seq<char>>, j: int, alen: int) -> Option<ReadStatus> {
    if parse_bounded(ts[2 * j], usize::MAX as int) is None {
        Some(ReadStatus::ParseError)
    } else if 2 * j + 1 >= ts.len() {
        Some(ReadStatus::ExpectedTuple(2))
    } else if parse_bounded(ts[2 * j + 1], usize::MAX as int) is None {
        Some(ReadStatus::ParseError)
    } else if pair_column(ts, j) == 0 || pair_exponent(ts, j) == 0 || pair_exponent(ts, j) * alen > u32::MAX {
        None
    } else {
        Some(ReadStatus::Read)
    }
}

/// How reading the first `k` pairs ends.
pub open spec fn pairs_status(ts: Seq<Seq<char>>, k: int, alen: int) -> Option<ReadStatus>
    decreases k,
{
    if k <= 0 {
        Some(ReadStatus::Read)
    } else if pairs_status(ts, k - 1, alen) != Some(ReadStatus::Read) {
        pairs_status(ts, k - 1, alen)
    } else {
        pair_status(ts, k - 1, alen)
    }
}

/// The exponent at each column (counted from zero) after the first `k` pairs, a later pair
/// replacing an earlier one of the same column.
pub open spec fn row_exponents(ts: Seq<Seq<char>>, k: int) -> Map<usize, u32>
    decreases k,
{
    if k <= 0 {
        Map::empty()
    } else {
        row_exponents(ts, k - 1).insert((pair_column(ts, k - 1) - 1) as usize, pair_exponent(ts, k - 1))
    }
}

/// `v` is the element of `gf` with coefficients `a` to the power `e`.
pub open spec fn power_of(v: FieldElement, a: Seq<int>, gf: GF, e: u32) -> bool {
    &&& v.gf()@ == gf@
    &&& v.gf().size() == gf.size()
    &&& v.s() == poly_rem(ppow(a, e as nat, gf.prime()), gf.modulus(), gf.prime())
}

/// `row` holds, in increasing order, exactly the columns of `exps`, each with the element of
/// `gf` with coefficients `a` to the power given there.
pub open spec fn row_matches(row: Seq<(usize, FieldElement)>, exps: Map<usize, u32>, a: Seq<int>, gf: GF) -> bool {
    &&& forall|i: int, j: int| 0 <= i < j < row.len() ==> row[i].0 < row[j].0
    &&& forall|i: int| 0 <= i < row.len() ==> exps.contains_key(#[trigger] row[i].0) && power_of(row[i].1, a, gf, exps[row[i].0])
    &&& forall|c: usize| #[trigger] exps.contains_key(c) ==> exists|i: int| 0 <= i < row.len() && row[i].0 == c
}

/// Puts `v`, the power `e` of `a`, at column `c`, replacing what was there.
fn insert_sorted(row: &mut FactorRow, c: usize, v: FieldElement, e: u32, a: &FieldElement, Ghost(exps): Ghost<Map<usize, u32>>)
    requires
        row_matches(old(row)@, exps, a.s(), a.gf()),
        power_of(v, a.s(), a.gf(), e),
    ensures
        row_matches(final(row)@, exps.insert(c, e), a.s(), a.gf()),
{
    let mut pos: usize = 0;
    while pos < row.len() && row[pos].0 < c
        invariant
            pos <= row.len(),
            row@ == old(row)@,
            forall|i: int| 0 <= i < pos ==> row@[i].0 < c,
        decreases row.len() - pos,
    {
        pos = pos + 1;
    }
    let ghost before = row@;
    let ghost m = exps.insert(c, e);
    if pos < row.len() && row[pos].0 == c {
        row.set(pos, (c, v));
        proof {
            let after = row@;
            assert forall|i: int| 0 <= i < after.len() implies m.contains_key(#[trigger] after[i].0) && power_of(
                after[i].1,
                a.s(),
                a.gf(),
                m[after[i].0],
            ) by {
                if i != pos {
                    assert(after[i] == before[i]);
                    if i < pos {
                        assert(before[i].0 < before[pos as int].0);
                    } else {
                        assert(before[pos as int].0 < before[i].0);
                    }
                }
            }
            assert forall|x: usize| #[trigger] m.contains_key(x) implies exists|i: int|
                0 <= i < after.len() && after[i].0 == x by {
                if x == c {
                    assert(after[pos as int].0 == x);
                } else {
                    let i = choose|i: int| 0 <= i < before.len() && before[i].0 == x;
                    assert(i != pos);
                    assert(after[i].0 == x);
                }
            }
        }
    } else {
        row.insert(pos, (c, v));
        proof {
            let after = row@;
            assert(after == before.insert(pos as int, (c, v)));
            assert forall|i: int, j: int| 0 <= i < j < after.len() implies after[i].0 < after[j].0 by {
                if j < pos {
                    assert(after[i] == before[i] && after[j] == before[j]);
                } else if j == pos {
                    assert(after[i] == before[i]);
                } else if i < pos {
                    assert(after[i] == before[i] && after[j] == before[j - 1]);
                    if pos < before.len() {
                        assert(before[pos as int].0 > c);
                        if j - 1 > pos {
                            assert(before[pos as int].0 < before[j - 1].0);
                        }
                    }
                } else if i == pos {
                    assert(after[j] == before[j - 1]);
                    assert(before[pos as int].0 > c);
                    if j - 1 > pos {
                        assert(before[pos as int].0 < before[j - 1].0);
                    }
                } else {
                    assert(after[i] == before[i - 1] && after[j] == before[j - 1]);
                }
            }
            assert forall|i: int| 0 <= i < after.len() implies m.contains_key(#[trigger] after[i].0) && power_of(
                after[i].1,
                a.s(),
                a.gf(),
                m[after[i].0],
            ) by {
                if i < pos {
                    assert(after[i] == before[i]);
                } else if i > pos {
                    assert(after[i] == before[i - 1]);
                    assert(before[i - 1].0 != c) by {
                        assert(before[pos as int].0 > c);
                        if i - 1 > pos {
                            assert(before[pos as int].0 < before[i - 1].0);
                        }
                    }
                }
            }
            assert forall|x: usize| #[trigger] m.contains_key(x) implies exists|i: int|
                0 <= i < after.len() && after[i].0 == x by {
                if x == c {
                    assert(after[pos as int].0 == x);
                } else {
                    let i = choose|i: int| 0 <= i < before.len() && before[i].0 == x;
                    if i < pos {
                        assert(after[i].0 == x);
                    } else {
                        assert(after[i + 1].0 == x);
                    }
                }
            }
        }
    }
}

proof fn lemma_pairs_status_sticks(ts: Seq<Seq<char>>, k1: int, k2: int, alen: int)
    requires
        0 <= k1 <= k2,
        pairs_status(ts, k1, alen) != Some(ReadStatus::Read),
    ensures
        pairs_status(ts, k2, alen) == pairs_status(ts, k1, alen),
    decreases k2 - k1,
{
    if k1 < k2 {
        lemma_pairs_status_sticks(ts, k1, k2 - 1, alen);
    }
}

/// Reads a factor line: pairs of a column, counted from one, and an exponent, giving the
/// power of `a` at that column, counted from zero; `None` where reading cannot finish.
fn read_row(line: &str, a: &FieldElement) -> (r: Option<Result<FactorRow, ReadError>>)
    ensures
        ({
            let ts = tokens(line@);
            let st = pairs_status(ts, num_pairs(ts), a.s().len() as int);
            &&& r is None <==> st is None
            &&& (r matches Some(Ok(_))) <==> st == Some(ReadStatus::Read)
            &&& r matches Some(Err(e)) ==> st == Some(status_of(e))
            &&& r matches Some(Ok(row)) ==> row_matches(row@, row_exponents(ts, num_pairs(ts)), a.s(), a.gf())
        }),
{
    let ws = split_tokens(line, false);
    let ghost ts = tokens(line@);
    let alen = a.coefficient_count();
    let np = ws.len() / 2 + ws.len() % 2;
    let mut row: FactorRow = Vec::new();
    let mut j: usize = 0;
    while j < np
        invariant
            texts(ws@) == ts,
            ts == tokens(line@),
            alen == a.s().len(),
            np == num_pairs(ts),
            np == ws.len() / 2 + ws.len() % 2,
            j <= np,
            pairs_status(ts, j as int, alen as int) == Some(ReadStatus::Read),
            row_matches(row@, row_exponents(ts, j as int), a.s(), a.gf()),
        decreases np - j,
    {
        let i = 2 * j;
        proof {
            assert(ts[i as int] == ws@[i as int]@);
        }
        let c = match parse_number(ws[i].as_str(), usize::MAX) {
            None => {
                proof {
                    lemma_pairs_status_sticks(ts, j + 1, np as int, alen as int);
                }
                return Some(Err(ReadError::ParseError(ws[i].clone())));
            },
            Some(x) => x,
        };
        if i + 1 >= ws.len() {
            proof {
                lemma_pairs_status_sticks(ts, j + 1, np as int, alen as int);
            }
            return Some(Err(ReadError::ExpectedTuple(2, ws[i].clone())));
        }
        proof {
            assert(ts[i + 1] == ws@[i + 1]@);
        }
        let ev = match parse_number(ws[i + 1].as_str(), usize::MAX) {
            None => {
                proof {
                    lemma_pairs_status_sticks(ts, j + 1, np as int, alen as int);
                }
                return Some(Err(ReadError::ParseError(ws[i + 1].clone())));
            },
            Some(x) => x,
        };
        let e = #[verifier::truncate] (ev as u32);
        proof {
            assert((e as u128) * (alen as u128) <= u128::MAX) by (nonlinear_arith)
                requires
                    e <= u32::MAX,
                    alen <= u64::MAX,
            ;
        }
        if c == 0 || e == 0 || (e as u128) * (alen as u128) > 0xFFFF_FFFF {
            proof {
                lemma_pairs_status_sticks(ts, j + 1, np as int, alen as int);
            }
            return None;
        }
        let v = a.pow(e);
        insert_sorted(&mut row, c - 1, v, e, a, Ghost(row_exponents(ts, j as int)));
        j = j + 1;
    }
    Some(Ok(row))
}

/// How reading the `k` factor lines from line `s` on ends, where the primitive element has
/// `alen` coefficients.
pub open spec fn rows_status(ls: Seq<Seq<u8>>, s: int, k: int, alen: int) -> Option<ReadStatus>
    decreases k,
{
    if k <= 0 {
        Some(ReadStatus::Read)
    } else if rows_status(ls, s, k - 1, alen) != Some(ReadStatus::Read) {
        rows_status(ls, s, k - 1, alen)
    } else if line_status(ls, s + k - 1) != ReadStatus::Read {
        Some(line_status(ls, s + k - 1))
    } else {
        let ts = tokens(line_text(ls, s + k - 1));
        pairs_status(ts, num_pairs(ts), alen)
    }
}

/// How reading the lines after the header ends: the largest numbers of neighbours (two
/// numbers), the numbers of neighbours of the variables and of the factors, the `vars`
/// lines of the variables, which are skipped, and the `factors` lines of the factors.
pub open spec fn body_status(ls: Seq<Seq<u8>>, vars: int, factors: int, alen: int) -> Option<ReadStatus> {
    if line_status(ls, 1) != ReadStatus::Read {
        Some(line_status(ls, 1))
    } else if tuple_status(line_text(ls, 1), 2, u32::MAX as int) != ReadStatus::Read {
        Some(tuple_status(line_text(ls, 1), 2, u32::MAX as int))
    } else if line_status(ls, 2) != ReadStatus::Read {
        Some(line_status(ls, 2))
    } else if list_status(line_text(ls, 2), usize::MAX as int) != ReadStatus::Read {
        Some(list_status(line_text(ls, 2), usize::MAX as int))
    } else if line_status(ls, 3) != ReadStatus::Read {
        Some(line_status(ls, 3))
    } else if list_status(line_text(ls, 3), usize::MAX as int) != ReadStatus::Read {
        Some(list_status(line_text(ls, 3), usize::MAX as int))
    } else if skip_status(ls, 4, vars) != ReadStatus::Read {
        Some(skip_status(ls, 4, vars))
    } else {
        rows_status(ls, 4 + vars, factors, alen)
    }
}

/// The numbers of the header: variables, factors and the field's order.
pub open spec fn header(ls: Seq<Seq<u8>>) -> Seq<nat> {
    values(tokens(line_text(ls, 0)), u32::MAX as int)
}

/// The prime of an order that is a power of one prime.
pub open spec fn order_prime(size: int) -> int {
    choose|p: int| single_prime(size, p)
}

/// The exponent of an order that is a power of one prime.
pub open spec fn order_dim(size: int) -> nat {
    choose|n: nat| n >= 1 && pow(order_prime(size), n) == size
}

/// `j` is the first candidate of degree `n` over `Z_p` (see `utils::candidate`) that passes
/// Rabin's test.
pub open spec fn first_irreducible(p: int, n: nat, j: int) -> bool {
    &&& 0 <= j < pow(p, n)
    &&& rabin_test(candidate(p, n, j), p)
    &&& forall|i: int| 0 <= i < j ==> !rabin_test(#[trigger] candidate(p, n, i), p)
}

/// The first candidate that passes Rabin's test.
pub open spec fn modulus_index(p: int, n: nat) -> int {
    choose|j: int| first_irreducible(p, n, j)
}

/// Element `k` of `GF(p^n)` built on `f` (see `radix::radix_seq`) is primitive.
pub open spec fn primitive_at(p: int, n: nat, f: Seq<int>, k: int) -> bool {
    is_primitive_elem(radix_seq(k, p, n), f, p, pow(p, n))
}

/// `k` is the first index from one on of a primitive element.
pub open spec fn first_primitive(p: int, n: nat, f: Seq<int>, k: int) -> bool {
    &&& 1 <= k < pow(p, n)
    &&& primitive_at(p, n, f, k)
    &&& forall|i: int| 1 <= i < k ==> !#[trigger] primitive_at(p, n, f, i)
}

/// The index of the first primitive element.
pub open spec fn primitive_of(p: int, n: nat, f: Seq<int>) -> int {
    choose|k: int| first_primitive(p, n, f, k)
}

/// How reading the lines `ls` ends: `None` where reading cannot finish (the field has no
/// irreducible candidate or no primitive element, a column is numbered zero, or a power
/// cannot be taken), otherwise the outcome's kind.
pub open spec fn read_status(ls: Seq<Seq<u8>>) -> Option<ReadStatus> {
    if line_status(ls, 0) != ReadStatus::Read {
        Some(line_status(ls, 0))
    } else if tuple_status(line_text(ls, 0), 3, u32::MAX as int) != ReadStatus::Read {
        Some(tuple_status(line_text(ls, 0), 3, u32::MAX as int))
    } else {
        let size = header(ls)[2] as int;
        if !(exists|p: int| single_prime(size, p)) {
            Some(ReadStatus::BadFieldSize(size as u32))
        } else {
            let p = order_prime(size);
            let n = order_dim(size);
            if !(exists|j: int| first_irreducible(p, n, j)) {
                None
            } else {
                let f = candidate(p, n, modulus_index(p, n));
                if !(exists|k: int| first_primitive(p, n, f, k)) {
                    None
                } else {
                    body_status(ls, header(ls)[0] as int, header(ls)[1] as int, radix_seq(primitive_of(p, n, f), p, n).len() as int)
                }
            }
        }
    }
}

/// The words of factor line `m`, after `vars` variable lines.
pub open spec fn factor_words(ls: Seq<Seq<u8>>, vars: int, m: int) -> Seq<Seq<char>> {
    tokens(line_text(ls, 4 + vars + m))
}

/// What a successful reading gives: the field `GF(p^n)` of the header's order, built on the
/// first irreducible candidate, and for each factor line the row of its pairs, with the
/// field's first primitive element to the power of each pair at its column.
pub open spec fn read_result(ls: Seq<Seq<u8>>, gf: GF, rows: Seq<FactorRow>) -> bool {
    let size = header(ls)[2] as int;
    let p = order_prime(size);
    let n = order_dim(size);
    let f = candidate(p, n, modulus_index(p, n));
    let a = radix_seq(primitive_of(p, n, f), p, n);
    let vars = header(ls)[0] as int;
    &&& gf@ == (p, n, f)
    &&& gf.size() == size
    &&& rows.len() == header(ls)[1]
    &&& forall|m: int|
        0 <= m < rows.len() ==> row_matches(
            #[trigger] rows[m]@,
            row_exponents(factor_words(ls, vars, m), num_pairs(factor_words(ls, vars, m))),
            a,
            gf,
        )
}

/// The field and the primitive element's coefficients `a` are those that the header of
/// `ls` calls for.
pub open spec fn field_ok(ls: Seq<Seq<u8>>, gf: GF, a: Seq<int>) -> bool {
    let size = header(ls)[2] as int;
    let p = order_prime(size);
    let n = order_dim(size);
    let f = candidate(p, n, modulus_index(p, n));
    &&& gf@ == (p, n, f)
    &&& gf.size() == size
    &&& a == radix_seq(primitive_of(p, n, f), p, n)
}

proof fn lemma_row_matches_same(row: Seq<(usize, FieldElement)>, exps: Map<usize, u32>, a: Seq<int>, g1: GF, g2: GF)
    requires
        row_matches(row, exps, a, g1),
        g1@ == g2@,
        g1.size() == g2.size(),
    ensures
        row_matches(row, exps, a, g2),
{
    assert forall|i: int| 0 <= i < row.len() implies exps.contains_key(#[trigger] row[i].0) && power_of(
        row[i].1,
        a,
        g2,
        exps[row[i].0],
    ) by {
        assert(power_of(row[i].1, a, g1, exps[row[i].0]));
    }
}

proof fn lemma_order_unique(size: int, p: int, n: nat)
    requires
        single_prime(size, p),
        n >= 1,
        pow(p, n) == size,
    ensures
        order_prime(size) == p,
        order_dim(size) == n,
{
    let q = order_prime(size);
    assert(single_prime(size, q));
    assert(q == p);
    let m = order_dim(size);
    assert(m >= 1 && pow(p, m) == size);
    if m < n {
        lemma_pow_strictly_increases(p as nat, m, n);
    } else if n < m {
        lemma_pow_strictly_increases(p as nat, n, m);
    }
}

proof fn lemma_first_irreducible_unique(p: int, n: nat, j: int)
    requires
        first_irreducible(p, n, j),
    ensures
        modulus_index(p, n) == j,
{
    let k = modulus_index(p, n);
    assert(first_irreducible(p, n, k));
    if k < j {
        assert(!rabin_test(candidate(p, n, k), p));
    } else if j < k {
        assert(!rabin_test(candidate(p, n, j), p));
    }
}

proof fn lemma_first_primitive_unique(p: int, n: nat, f: Seq<int>, j: int)
    requires
        first_primitive(p, n, f, j),
    ensures
        primitive_of(p, n, f) == j,
{
    let k = primitive_of(p, n, f);
    assert(first_primitive(p, n, f, k));
    if k < j {
        assert(!primitive_at(p, n, f, k));
    } else if j < k {
        assert(!primitive_at(p, n, f, j));
    }
}

proof fn lemma_skip_sticks(ls: Seq<Seq<u8>>, s: int, k1: int, k2: int)
    requires
        0 <= k1 <= k2,
        skip_status(ls, s, k1) != ReadStatus::Read,
    ensures
        skip_status(ls, s, k2) == skip_status(ls, s, k1),
    decreases k2 - k1,
{
    if k1 < k2 {
        lemma_skip_sticks(ls, s, k1, k2 - 1);
    }
}

proof fn lemma_rows_sticks(ls: Seq<Seq<u8>>, s: int, k1: int, k2: int, alen: int)
    requires
        0 <= k1 <= k2,
        rows_status(ls, s, k1, alen) != Some(ReadStatus::Read),
    ensures
        rows_status(ls, s, k2, alen) == rows_status(ls, s, k1, alen),
    decreases k2 - k1,
{
    if k1 < k2 {
        lemma_rows_sticks(ls, s, k1, k2 - 1, alen);
    }
}

/// Reads the description, in the alist format, of a sparse matrix over a finite field: the
/// field, built on the first irreducible polynomial of the header's order, and for each
/// factor its columns with the field's first primitive element raised to the power given
/// there. `None` where reading cannot finish: when the field has no irreducible candidate
/// or no primitive element, a column is numbered zero, or a power cannot be taken.
pub fn read_alist_bytes(b: &[u8]) -> (r: Option<Result<(GF, Vec<FactorRow>), ReadError>>)
    ensures
        r is None <==> read_status(lines(b@)) is None,
        (r matches Some(Ok(_))) <==> read_status(lines(b@)) == Some(ReadStatus::Read),
        r matches Some(Err(e)) ==> read_status(lines(b@)) == Some(status_of(e)),
        r matches Some(Ok((gf, rows))) ==> read_result(lines(b@), gf, rows@),
{
    let ls = split_lines(b);
    let ghost lv = views(ls@);
    let l0 = match read_line(&ls, 0) {
        Ok(s) => s,
        Err(e) => {
            return Some(Err(e));
        },
    };
    let h = match read_tuple(l0, 3, 0xFFFF_FFFF) {
        Ok(v) => v,
        Err(e) => {
            return Some(Err(e));
        },
    };
    let num_vars = h[0];
    let num_factors = h[1];
    proof {
        assert(header(lv)[2] == h[2] as nat);
        assert(h[2] <= u32::MAX);
    }
    let size = h[2] as u32;
    let (p, n) = match field_order(size) {
        None => {
            return Some(Err(ReadError::BadFieldSize(size)));
        },
        Some(x) => x,
    };
    proof {
        lemma_order_unique(size as int, p as int, n as nat);
    }
    let mut it = find_irreducible(p, n);
    let poly = match it.next() {
        None => {
            proof {
                assert forall|j: int| !first_irreducible(p as int, n as nat, j) by {
                    if first_irreducible(p as int, n as nat, j) {
                        assert(!rabin_test(candidate(p as int, n as nat, j), p as int));
                    }
                }
            }
            return None;
        },
        Some(c) => c,
    };
    let ghost j_irr = choose|j: int|
        0 <= j < pow(p as int, n as nat) && poly.p() == p as int && poly.s() == candidate(p as int, n as nat, j)
            && rabin_test(candidate(p as int, n as nat, j), p as int) && forall|i: int|
            0 <= i < j ==> !rabin_test(#[trigger] candidate(p as int, n as nat, i), p as int);
    proof {
        assert(first_irreducible(p as int, n as nat, j_irr));
        lemma_first_irreducible_unique(p as int, n as nat, j_irr);
        lemma_candidate(p as int, n as nat, j_irr);
    }
    let gf = match GF::from_poly(poly) {
        Err(e) => {
            return Some(Err(ReadError::FieldError(e)));
        },
        Ok(g) => g,
    };
    let ghost f = candidate(p as int, n as nat, j_irr);
    let mut prims = gf.iter_primitive();
    let ghost g2 = prims.field();
    proof {
        assert forall|k: int| #[trigger] primitive_index(g2, k) == primitive_at(p as int, n as nat, f, k) by {
        }
    }
    let a = match prims.next() {
        None => {
            proof {
                assert forall|k: int| !first_primitive(p as int, n as nat, f, k) by {
                    if first_primitive(p as int, n as nat, f, k) {
                        assert(!primitive_index(g2, k));
                    }
                }
            }
            return None;
        },
        Some(x) => x,
    };
    let ghost k_prim = choose|k: int|
        1 <= k < g2.size() && a.gf()@ == g2@ && a.s() == radix_seq(k, g2.prime(), g2.dim()) && #[trigger] primitive_index(
            g2,
            k,
        ) && forall|i: int| 1 <= i < k ==> !#[trigger] primitive_index(g2, i);
    proof {
        assert forall|i: int| 1 <= i < k_prim implies !#[trigger] primitive_at(p as int, n as nat, f, i) by {
            assert(!primitive_index(g2, i));
        }
        assert(primitive_index(g2, k_prim));
        assert(first_primitive(p as int, n as nat, f, k_prim));
        lemma_first_primitive_unique(p as int, n as nat, f, k_prim);
    }
    let ghost alen = a.s().len() as int;
    let fa = a.field();
    proof {
        use_type_invariant(fa);
        use_type_invariant(&gf);
        assert(field_ok(lv, gf, a.s()));
    }
    let l1 = match read_line(&ls, 1) {
        Ok(s) => s,
        Err(e) => {
            return Some(Err(e));
        },
    };
    match read_tuple(l1, 2, 0xFFFF_FFFF) {
        Ok(_) => {},
        Err(e) => {
            return Some(Err(e));
        },
    }
    let l2 = match read_line(&ls, 2) {
        Ok(s) => s,
        Err(e) => {
            return Some(Err(e));
        },
    };
    match read_numbers(l2, usize::MAX) {
        Ok(_) => {},
        Err(e) => {
            return Some(Err(e));
        },
    }
    let l3 = match read_line(&ls, 3) {
        Ok(s) => s,
        Err(e) => {
            return Some(Err(e));
        },
    };
    match read_numbers(l3, usize::MAX) {
        Ok(_) => {},
        Err(e) => {
            return Some(Err(e));
        },
    }
    let ghost nv = num_vars as int;
    let ghost nf = num_factors as int;
    proof {
        assert(lv == lines(b@));
        assert(header(lv)[0] == num_vars as nat && header(lv)[1] == num_factors as nat);
        assert(read_status(lv) == body_status(lv, nv, nf, alen));
    }
    let mut i: usize = 4;
    let mut k: usize = 0;
    while k < num_vars
        invariant
            lv == views(ls@),
            lv == lines(b@),
            nv == num_vars,
            nf == num_factors,
            read_status(lv) == body_status(lv, nv, nf, alen),
            body_status(lv, nv, nf, alen) == (if skip_status(lv, 4, nv) != ReadStatus::Read {
                Some(skip_status(lv, 4, nv))
            } else {
                rows_status(lv, 4 + nv, nf, alen)
            }),
            i == 4 + k,
            k <= num_vars,
            i <= ls.len() + 1,
            skip_status(lv, 4, k as int) == ReadStatus::Read,
        decreases num_vars - k,
    {
        match read_line(&ls, i) {
            Ok(_) => {},
            Err(e) => {
                proof {
                    lemma_skip_sticks(lv, 4, k + 1, num_vars as int);
                }
                return Some(Err(e));
            },
        }
        i = i + 1;
        k = k + 1;
    }
    let ghost s0 = i as int;
    let mut rows: Vec<FactorRow> = Vec::new();
    let mut m: usize = 0;
    while m < num_factors
        invariant
            lv == views(ls@),
            lv == lines(b@),
            nv == num_vars,
            nf == num_factors,
            skip_status(lv, 4, nv) == ReadStatus::Read,
            read_status(lv) == rows_status(lv, 4 + nv, nf, alen),
            field_ok(lv, gf, a.s()),
            header(lv)[0] == nv,
            header(lv)[1] == nf,
            s0 == 4 + num_vars,
            i == s0 + m,
            m <= num_factors,
            i <= ls.len() + 1,
            a.s().len() == alen,
            a.gf()@ == gf@,
            a.gf().size() == gf.size(),
            rows_status(lv, s0, m as int, alen) == Some(ReadStatus::Read),
            rows.len() == m,
            forall|t: int|
                0 <= t < m ==> row_matches(
                    #[trigger] rows@[t]@,
                    row_exponents(factor_words(lv, nv, t), num_pairs(factor_words(lv, nv, t))),
                    a.s(),
                    gf,
                ),
        decreases num_factors - m,
    {
        let line = match read_line(&ls, i) {
            Ok(s) => s,
            Err(e) => {
                proof {
                    lemma_rows_sticks(lv, s0, m + 1, num_factors as int, alen);
                }
                return Some(Err(e));
            },
        };
        let row = match read_row(line, &a) {
            None => {
                proof {
                    lemma_rows_sticks(lv, s0, m + 1, num_factors as int, alen);
                }
                return None;
            },
            Some(Err(e)) => {
                proof {
                    lemma_rows_sticks(lv, s0, m + 1, num_factors as int, alen);
                }
                return Some(Err(e));
            },
            Some(Ok(row)) => row,
        };
        proof {
            lemma_row_matches_same(
                row@,
                row_exponents(factor_words(lv, nv, m as int), num_pairs(factor_words(lv, nv, m as int))),
                a.s(),
                a.gf(),
                gf,
            );
        }
        rows.push(row);
        i = i + 1;
        m = m + 1;
    }
    Some(Ok((gf, rows)))
}

/// How reading entry `i` of a matrix line ends, where the primitive element has `alen`
/// coefficients: `-1` marks an empty entry; anything else is the exponent of the entry, a
/// `u32`; `None` when its power cannot be taken.
pub open spec fn entry_status(ts: Seq<Seq<char>>, i: int, alen: int) -> Option<ReadStatus> {
    if ts[i] == seq!['-', '1'] {
        Some(ReadStatus::Read)
    } else if parse_bounded(ts[i], u32::MAX as int) is None {
        Some(ReadStatus::ParseError)
    } else if parse_bounded(ts[i], u32::MAX as int).unwrap() == 0 || parse_bounded(ts[i], u32::MAX as int).unwrap()
        * alen > u32::MAX {
        None
    } else {
        Some(ReadStatus::Read)
    }
}

/// How reading the first `k` entries of a matrix line ends.
pub open spec fn entries_status(ts: Seq<Seq<char>>, k: int, alen: int) -> Option<ReadStatus>
    decreases k,
{
    if k <= 0 {
        Some(ReadStatus::Read)
    } else if entries_status(ts, k - 1, alen) != Some(ReadStatus::Read) {
        entries_status(ts, k - 1, alen)
    } else {
        entry_status(ts, k - 1, alen)
    }
}

/// The exponent at each column of the first `k` entries of a matrix line, the entries
/// marked `-1` left out.
pub open spec fn entry_exponents(ts: Seq<Seq<char>>, k: int) -> Map<usize, u32>
    decreases k,
{
    if k <= 0 {
        Map::empty()
    } else if ts[k - 1] == seq!['-', '1'] {
        entry_exponents(ts, k - 1)
    } else {
        entry_exponents(ts, k - 1).insert((k - 1) as usize, parse_bounded(ts[k - 1], u32::MAX as int).unwrap() as u32)
    }
}

/// How reading the first `k` lines of a matrix ends.
pub open spec fn matrix_status(ls: Seq<Seq<u8>>, k: int, alen: int) -> Option<ReadStatus>
    decreases k,
{
    if k <= 0 {
        Some(ReadStatus::Read)
    } else if matrix_status(ls, k - 1, alen) != Some(ReadStatus::Read) {
        matrix_status(ls, k - 1, alen)
    } else if line_status(ls, k - 1) != ReadStatus::Read {
        Some(line_status(ls, k - 1))
    } else {
        let ts = ascii_tokens(line_text(ls, k - 1));
        entries_status(ts, ts.len() as int, alen)
    }
}

proof fn lemma_entries_sticks(ts: Seq<Seq<char>>, k1: int, k2: int, alen: int)
    requires
        0 <= k1 <= k2,
        entries_status(ts, k1, alen) != Some(ReadStatus::Read),
    ensures
        entries_status(ts, k2, alen) == entries_status(ts, k1, alen),
    decreases k2 - k1,
{
    if k1 < k2 {
        lemma_entries_sticks(ts, k1, k2 - 1, alen);
    }
}

proof fn lemma_matrix_sticks(ls: Seq<Seq<u8>>, k1: int, k2: int, alen: int)
    requires
        0 <= k1 <= k2,
        matrix_status(ls, k1, alen) != Some(ReadStatus::Read),
    ensures
        matrix_status(ls, k2, alen) == matrix_status(ls, k1, alen),
    decreases k2 - k1,
{
    if k1 < k2 {
        lemma_matrix_sticks(ls, k1, k2 - 1, alen);
    }
}

/// Reads a matrix line: entry `i` is `-1` for none, or the exponent of the power of `a` at
/// column `i`; `None` when a power cannot be taken.
fn read_entries(line: &str, a: &FieldElement) -> (r: Option<Result<FactorRow, ReadError>>)
    ensures
        ({
            let ts = ascii_tokens(line@);
            let st = entries_status(ts, ts.len() as int, a.s().len() as int);
            &&& r is None <==> st is None
            &&& (r matches Some(Ok(_))) <==> st == Some(ReadStatus::Read)
            &&& r matches Some(Err(e)) ==> st == Some(status_of(e))
            &&& r matches Some(Ok(row)) ==> row_matches(row@, entry_exponents(ts, ts.len() as int), a.s(), a.gf())
        }),
{
    let ws = split_tokens(line, true);
    let ghost ts = ascii_tokens(line@);
    let alen = a.coefficient_count();
    let mut row: FactorRow = Vec::new();
    let mut i: usize = 0;
    while i < ws.len()
        invariant
            texts(ws@) == ts,
            ts == ascii_tokens(line@),
            alen == a.s().len(),
            i <= ws.len(),
            entries_status(ts, i as int, alen as int) == Some(ReadStatus::Read),
            row_matches(row@, entry_exponents(ts, i as int), a.s(), a.gf()),
            forall|t: int| 0 <= t < row.len() ==> #[trigger] row@[t].0 < i,
        decreases ws.len() - i,
    {
        let w = ws[i].as_str();
        proof {
            assert(ts[i as int] == ws@[i as int]@);
        }
        let is_empty_mark = w.unicode_len() == 2 && w.get_char(0) == '-' && w.get_char(1) == '1';
        proof {
            if is_empty_mark {
                assert(w@ =~= seq!['-', '1']);
            } else if w@ == seq!['-', '1'] {
                assert(w@.len() == 2 && w@[0] == '-' && w@[1] == '1');
            }
        }
        if !is_empty_mark {
            let e = match parse_number(w, 0xFFFF_FFFF) {
                None => {
                    proof {
                        lemma_entries_sticks(ts, i + 1, ts.len() as int, alen as int);
                    }
                    return Some(Err(ReadError::ParseError(ws[i].clone())));
                },
                Some(x) => x as u32,
            };
            proof {
                assert((e as u128) * (alen as u128) <= u128::MAX) by (nonlinear_arith)
                    requires
                        e <= u32::MAX,
                        alen <= u64::MAX,
                ;
            }
            if e == 0 || (e as u128) * (alen as u128) > 0xFFFF_FFFF {
                proof {
                    lemma_entries_sticks(ts, i + 1, ts.len() as int, alen as int);
                }
                return None;
            }
            let v = a.pow(e);
            let ghost before = row@;
            row.push((i, v));
            proof {
                let m = entry_exponents(ts, i + 1);
                assert(m == entry_exponents(ts, i as int).insert(i, e));
                let after = row@;
                assert forall|x: int| 0 <= x < after.len() implies m.contains_key(#[trigger] after[x].0) && power_of(
                    after[x].1,
                    a.s(),
                    a.gf(),
                    m[after[x].0],
                ) by {
                    if x < before.len() {
                        assert(after[x] == before[x]);
                        assert(before[x].0 < i);
                    }
                }
                assert forall|c: usize| #[trigger] m.contains_key(c) implies exists|x: int|
                    0 <= x < after.len() && after[x].0 == c by {
                    if c == i {
                        assert(after[before.len() as int].0 == c);
                    } else {
                        let x = choose|x: int| 0 <= x < before.len() && before[x].0 == c;
                        assert(after[x].0 == c);
                    }
                }
            }
        }
        i = i + 1;
    }
    proof {
        assert(i == ts.len());
    }
    Some(Ok(row))
}

/// Reads a matrix over the field built on `poly`, one line per factor, each entry `-1` for
/// none or the exponent of the field's first primitive element there: the field's errors
/// come first, then those of reading the text `content`. `None` where reading cannot
/// finish: when the field has no primitive element or a power cannot be taken.
pub fn read_matrix(poly: Polynomial, content: Result<&[u8], String>) -> (r: Option<Result<(GF, Vec<FactorRow>), ReadError>>)
    requires
        poly.s().len() > 0,
        spec_is_prime(poly.p()) ==> pow(poly.p(), (poly.s().len() - 1) as nat) < u32::MAX - 1,
    ensures
        !spec_is_prime(poly.p()) || !rabin_test(poly.s(), poly.p()) ==> (r matches Some(Err(e)) && status_of(e)
            == ReadStatus::FieldError),
        spec_is_prime(poly.p()) && rabin_test(poly.s(), poly.p()) ==> ({
            let p = poly.p();
            let n = (poly.s().len() - 1) as nat;
            let f = poly.s();
            &&& content is Err ==> (r matches Some(Err(e)) && status_of(e) == ReadStatus::IOError)
            &&& !(exists|k: int| first_primitive(p, n, f, k)) && content is Ok ==> r is None
            &&& content matches Ok(b) ==> ((exists|k: int| first_primitive(p, n, f, k)) ==> ({
                let ls = lines(b@);
                let st = matrix_status(ls, ls.len() as int, radix_seq(primitive_of(p, n, f), p, n).len() as int);
                &&& r is None <==> st is None
                &&& (r matches Some(Ok(_))) <==> st == Some(ReadStatus::Read)
                &&& r matches Some(Err(e)) ==> st == Some(status_of(e))
                &&& r matches Some(Ok((gf, rows))) ==> {
                    &&& gf@ == (p, n, f)
                    &&& gf.size() == pow(p, n)
                    &&& rows.len() == ls.len()
                    &&& forall|m: int|
                        0 <= m < rows.len() ==> row_matches(
                            #[trigger] rows@[m]@,
                            entry_exponents(ascii_tokens(line_text(ls, m)), ascii_tokens(line_text(ls, m)).len() as int),
                            radix_seq(primitive_of(p, n, f), p, n),
                            gf,
                        )
                }
            }))
        }),
{
    let ghost p = poly.p();
    let ghost n = (poly.s().len() - 1) as nat;
    let ghost f = poly.s();
    let gf = match GF::from_poly(poly) {
        Err(e) => {
            return Some(Err(ReadError::FieldError(e)));
        },
        Ok(g) => g,
    };
    let b = match content {
        Err(msg) => {
            return Some(Err(ReadError::IOError(msg)));
        },
        Ok(b) => b,
    };
    let mut prims = gf.iter_primitive();
    let ghost g2 = prims.field();
    proof {
        assert forall|k: int| #[trigger] primitive_index(g2, k) == primitive_at(p, n, f, k) by {
        }
    }
    let a = match prims.next() {
        None => {
            proof {
                assert forall|k: int| !first_primitive(p, n, f, k) by {
                    if first_primitive(p, n, f, k) {
                        assert(!primitive_index(g2, k));
                    }
                }
            }
            return None;
        },
        Some(x) => x,
    };
    let ghost k_prim = choose|k: int|
        1 <= k < g2.size() && a.gf()@ == g2@ && a.s() == radix_seq(k, g2.prime(), g2.dim()) && #[trigger] primitive_index(
            g2,
            k,
        ) && forall|i: int| 1 <= i < k ==> !#[trigger] primitive_index(g2, i);
    proof {
        assert forall|i: int| 1 <= i < k_prim implies !#[trigger] primitive_at(p, n, f, i) by {
            assert(!primitive_index(g2, i));
        }
        assert(primitive_index(g2, k_prim));
        assert(first_primitive(p, n, f, k_prim));
        lemma_first_primitive_unique(p, n, f, k_prim);
    }
    let ghost alen = a.s().len() as int;
    let fa = a.field();
    proof {
        use_type_invariant(fa);
        use_type_invariant(&gf);
    }
    let ls = split_lines(b);
    let ghost lv = views(ls@);
    let mut rows: Vec<FactorRow> = Vec::new();
    let mut m: usize = 0;
    while m < ls.len()
        invariant
            lv == views(ls@),
            lv == lines(b@),
            content == Result::<&[u8], String>::Ok(b),
            p == poly.p(),
            f == poly.s(),
            n == (poly.s().len() - 1) as nat,
            spec_is_prime(p),
            rabin_test(f, p),
            first_primitive(p, n, f, k_prim),
            gf@ == (p, n, f),
            gf.size() == pow(p, n),
            m <= ls.len(),
            a.s().len() == alen,
            a.s() == radix_seq(primitive_of(p, n, f), p, n),
            a.gf()@ == gf@,
            a.gf().size() == gf.size(),
            matrix_status(lv, m as int, alen) == Some(ReadStatus::Read),
            rows.len() == m,
            forall|t: int|
                0 <= t < m ==> row_matches(
                    #[trigger] rows@[t]@,
                    entry_exponents(ascii_tokens(line_text(lv, t)), ascii_tokens(line_text(lv, t)).len() as int),
                    a.s(),
                    gf,
                ),
        decreases ls.len() - m,
    {
        let line = match read_line(&ls, m) {
            Ok(s) => s,
            Err(e) => {
                proof {
                    lemma_matrix_sticks(lv, m + 1, lv.len() as int, alen);
                }
                return Some(Err(e));
            },
        };
        let row = match read_entries(line, &a) {
            None => {
                proof {
                    lemma_matrix_sticks(lv, m + 1, lv.len() as int, alen);
                }
                return None;
            },
            Some(Err(e)) => {
                proof {
                    lemma_matrix_sticks(lv, m + 1, lv.len() as int, alen);
                }
                return Some(Err(e));
            },
            Some(Ok(row)) => row,
        };
        proof {
            lemma_row_matches_same(
                row@,
                entry_exponents(ascii_tokens(line_text(lv, m as int)), ascii_tokens(line_text(lv, m as int)).len() as int),
                a.s(),
                a.gf(),
                gf,
            );
        }
        rows.push(row);
        m = m + 1;
    }
    Some(Ok((gf, rows)))
}

} // verus!
