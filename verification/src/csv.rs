//! The comma-separated file in which final keys are kept: its name, its
//! header and its rows, with identifiers in their hyphenated form.

use vstd::prelude::*;
use crate::decimal::{append_digit, digit_char};
use crate::key_processing::{bits_text, key_text};

verus! {

/// The hexadecimal digit `d` as a lower-case character.
pub open spec fn hex_char(d: int) -> char {
    if d < 10 {
        digit_char(d)
    } else if d == 10 {
        'a'
    } else if d == 11 {
        'b'
    } else if d == 12 {
        'c'
    } else if d == 13 {
        'd'
    } else if d == 14 {
        'e'
    } else {
        'f'
    }
}

/// The `n` lowest hexadecimal digits of `v`, the most significant first.
pub open spec fn hex_digits(v: nat, n: nat) -> Seq<char>
    decreases n,
{
    if n == 0 {
        Seq::empty()
    } else {
        hex_digits(v / 16, (n - 1) as nat).push(hex_char((v % 16) as int))
    }
}

/// The hyphenated form of a 128-bit identifier: its 32 hexadecimal digits,
/// most significant first, in groups of 8, 4, 4, 4 and 12 joined by `-`.
pub open spec fn hyphenated(id: u128) -> Seq<char> {
    hex_digits(id as nat / 0x1_0000_0000_0000_0000_0000_0000, 8) + seq!['-']
        + hex_digits(id as nat / 0x1_0000_0000_0000_0000_0000, 4) + seq!['-']
        + hex_digits(id as nat / 0x1_0000_0000_0000_0000, 4) + seq!['-']
        + hex_digits(id as nat / 0x1_0000_0000_0000, 4) + seq!['-']
        + hex_digits(id as nat, 12)
}

/// The name of the file that keeps the keys of the link `link_id`.
pub open spec fn file_name(link_id: u128) -> Seq<char> {
    hyphenated(link_id) + seq!['.', 'c', 's', 'v']
}

/// The first line of the file.
pub open spec fn header_line() -> Seq<char> {
    seq!['k', 'e', 'y', '_', 'i', 'd', ',', 'v', 'a', 'l', 'u', 'e', '\n']
}

/// The line that keeps the key `key_id` with the bits `bits`.
pub open spec fn key_line(key_id: u128, bits: Seq<bool>) -> Seq<char> {
    hyphenated(key_id) + seq![','] + bits_text(bits) + seq!['\n']
}

/// Append the hexadecimal digit `d`.
fn append_hex_digit(out: &mut String, d: u32)
    requires
        d < 16,
    ensures
        final(out)@ == old(out)@.push(hex_char(d as int)),
{
    if d < 10 {
        append_digit(out, d);
    } else {
        proof {
            reveal_strlit("a");
            reveal_strlit("b");
            reveal_strlit("c");
            reveal_strlit("d");
            reveal_strlit("e");
            reveal_strlit("f");
        }
        if d == 10 {
            out.append("a");
        } else if d == 11 {
            out.append("b");
        } else if d == 12 {
            out.append("c");
        } else if d == 13 {
            out.append("d");
        } else if d == 14 {
            out.append("e");
        } else {
            out.append("f");
        }
    }
}

/// Append the `n` lowest hexadecimal digits of `v`.
fn append_hex(out: &mut String, v: u128, n: usize)
    ensures
        final(out)@ == old(out)@ + hex_digits(v as nat, n as nat),
    decreases n,
{
    if n > 0 {
        append_hex(out, v / 16, n - 1);
        append_hex_digit(out, (v % 16) as u32);
        proof {
            assert(hex_digits(v as nat, n as nat) == hex_digits((v / 16) as nat, (n - 1) as nat).push(
                hex_char((v % 16) as int),
            ));
        }
    } else {
        proof {
            assert(old(out)@ + hex_digits(v as nat, 0) =~= old(out)@);
        }
    }
}

/// Append a single `-`.
fn append_hyphen(out: &mut String)
    ensures
        final(out)@ == old(out)@ + seq!['-'],
{
    proof {
        reveal_strlit("-");
    }
    out.append("-");
}

/// The hyphenated form of `id`, as an identifier is displayed.
pub fn uuid_text(id: u128) -> (r: String)
    ensures
        r@ == hyphenated(id),
{
    let mut out = String::new();
    append_hex(&mut out, id / 0x1_0000_0000_0000_0000_0000_0000, 8);
    append_hyphen(&mut out);
    append_hex(&mut out, id / 0x1_0000_0000_0000_0000_0000, 4);
    append_hyphen(&mut out);
    append_hex(&mut out, id / 0x1_0000_0000_0000_0000, 4);
    append_hyphen(&mut out);
    append_hex(&mut out, id / 0x1_0000_0000_0000, 4);
    append_hyphen(&mut out);
    append_hex(&mut out, id, 12);
    proof {
        assert(out@ =~= hyphenated(id));
    }
    out
}

/// The file of final keys of one link: one header line, then one line per key.
pub struct CsvWriter {
    filename: String,
}

impl View for CsvWriter {
    type V = Seq<char>;

    /// The name of the file.
    closed spec fn view(&self) -> Seq<char> {
        self.filename@
    }
}

impl CsvWriter {
    /// The writer for the link `link_id`; its file is named after the link.
    pub fn new(link_id: u128) -> (r: Self)
        ensures
            r@ == file_name(link_id),
    {
        let mut filename = uuid_text(link_id);
        proof {
            reveal_strlit(".csv");
        }
        filename.append(".csv");
        CsvWriter { filename }
    }

    /// The name of the file.
    pub fn filename(&self) -> (r: &str)
        ensures
            r@ == self@,
    {
        self.filename.as_str()
    }

    /// The line that opens a new file.
    pub fn header(&self) -> (r: String)
        ensures
            r@ == header_line(),
    {
        proof {
            reveal_strlit("key_id,value\n");
        }
        String::from_str("key_id,value\n")
    }

    /// The line that keeps the key `key_id`, whose bits are `bits`.
    pub fn key_row(&self, key_id: u128, bits: &[bool]) -> (r: String)
        ensures
            r@ == key_line(key_id, bits@),
    {
        let mut out = uuid_text(key_id);
        proof {
            reveal_strlit(",");
            reveal_strlit("\n");
        }
        out.append(",");
        let value = key_text(bits);
        out.append(value.as_str());
        out.append("\n");
        proof {
            assert(out@ =~= key_line(key_id, bits@));
        }
        out
    }
}

} // verus!
