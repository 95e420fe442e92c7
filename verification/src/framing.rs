//! Framing of the messages exchanged between peers, and the location of a
//! fault in a configuration text.

use vstd::prelude::*;

verus! {

/// The four bytes of `n`, the most significant first.
pub open spec fn be_bytes(n: u32) -> Seq<u8> {
    seq![
        (n / 0x100_0000) as u8,
        ((n / 0x1_0000) % 0x100) as u8,
        ((n / 0x100) % 0x100) as u8,
        (n % 0x100) as u8,
    ]
}

/// A message as it is sent: its length in four big-endian bytes, then its bytes.
/// `None` where the length does not fit in four bytes.
pub fn frame_message(payload: &[u8]) -> (r: Option<Vec<u8>>)
    ensures
        r is Some <==> payload@.len() <= u32::MAX,
        r matches Some(v) ==> v@ == be_bytes(payload@.len() as u32) + payload@,
{
    if payload.len() > 0xffff_ffff {
        return None;
    }
    let n: u32 = payload.len() as u32;
    let mut out: Vec<u8> = Vec::new();
    out.push((n / 0x100_0000) as u8);
    out.push(((n / 0x1_0000) % 0x100) as u8);
    out.push(((n / 0x100) % 0x100) as u8);
    out.push((n % 0x100) as u8);
    let mut i: usize = 0;
    while i < payload.len()
        invariant
            i <= payload@.len(),
            n == payload@.len(),
            out@ == be_bytes(n) + payload@.subrange(0, i as int),
        decreases payload@.len() - i,
    {
        out.push(payload[i]);
        i = i + 1;
        proof {
            assert(out@ =~= be_bytes(n) + payload@.subrange(0, i as int));
        }
    }
    proof {
        assert(payload@.subrange(0, i as int) =~= payload@);
    }
    Some(out)
}

/// The number of line breaks in `s`.
pub open spec fn line_breaks(s: Seq<u8>) -> nat
    decreases s.len(),
{
    if s.len() == 0 {
        0
    } else {
        line_breaks(s.drop_last()) + if s.last() == 10u8 {
            1nat
        } else {
            0nat
        }
    }
}

/// The position of the last line break in `s`, or `-1` where it has none.
pub open spec fn last_break(s: Seq<u8>) -> int
    decreases s.len(),
{
    if s.len() == 0 {
        -1
    } else if s.last() == 10u8 {
        s.len() - 1
    } else {
        last_break(s.drop_last())
    }
}

/// Where the byte at `start` of a configuration text lies: the number of line
/// breaks before it, and the position of the last of them (0 where there is none).
pub fn fault_location(text: &[u8], start: usize) -> (r: (usize, usize))
    requires
        start <= text@.len(),
    ensures
        r.0 == line_breaks(text@.subrange(0, start as int)),
        r.1 == if last_break(text@.subrange(0, start as int)) < 0 {
            0
        } else {
            last_break(text@.subrange(0, start as int))
        },
{
    let mut count: usize = 0;
    let mut last: Option<usize> = None;
    let mut i: usize = 0;
    while i < start
        invariant
            i <= start <= text@.len(),
            count == line_breaks(text@.subrange(0, i as int)),
            count <= i,
            last matches Some(p) ==> p == last_break(text@.subrange(0, i as int)),
            last is None ==> last_break(text@.subrange(0, i as int)) == -1,
        decreases start - i,
    {
        proof {
            assert(text@.subrange(0, i + 1).drop_last() =~= text@.subrange(0, i as int));
        }
        if text[i] == 10u8 {
            count = count + 1;
            last = Some(i);
        }
        i = i + 1;
    }
    match last {
        Some(p) => (count, p),
        None => (count, 0),
    }
}

} // verus!
