//! Registering a key with the follower before post-processing it, and the text of a secret
//! key as it is saved.

use vstd::prelude::*;

verus! {

/// The leader announces a key: its identifier and its length.
#[derive(Debug, PartialEq, Eq, Clone, Copy, Structural)]
pub struct RegisterKey(pub u128, pub usize);

impl RegisterKey {
    /// The key identifier.
    pub fn key_id(&self) -> (r: u128)
        ensures
            r == self.0,
    {
        self.0
    }

    /// The key length.
    pub fn len(&self) -> (r: usize)
        ensures
            r == self.1,
    {
        self.1
    }
}

/// Post-processing of a key is given up.
#[derive(Debug, PartialEq, Eq, Clone, Copy, Structural)]
pub struct Abort(pub u128);

/// The follower's answer to a registration.
#[derive(Debug, PartialEq, Eq, Clone, Copy, Structural)]
pub enum RegisterReply {
    KeyFound(u128),
    KeyNotFound(u128),
    LengthMismatch(u128),
}

impl RegisterReply {
    /// The key was found.
    pub fn found(key_id: u128) -> (r: Self)
        ensures
            r == RegisterReply::KeyFound(key_id),
    {
        RegisterReply::KeyFound(key_id)
    }

    /// The key was not found.
    pub fn not_found(key_id: u128) -> (r: Self)
        ensures
            r == RegisterReply::KeyNotFound(key_id),
    {
        RegisterReply::KeyNotFound(key_id)
    }

    /// The key identifier the answer is about.
    pub fn get_id(&self) -> (r: u128)
        ensures
            r == match *self {
                RegisterReply::KeyFound(id) => id,
                RegisterReply::KeyNotFound(id) => id,
                RegisterReply::LengthMismatch(id) => id,
            },
    {
        match self {
            RegisterReply::KeyFound(id) => *id,
            RegisterReply::KeyNotFound(id) => *id,
            RegisterReply::LengthMismatch(id) => *id,
        }
    }
}

/// The leader asks to start reconciliation of a key.
#[derive(Debug, PartialEq, Eq, Clone, Copy, Structural)]
pub struct StartReconciliation(pub u128);

/// The follower's answer to the start of reconciliation.
#[derive(Debug, PartialEq, Eq, Clone, Copy, Structural)]
pub enum StartReconReply {
    Start(u128),
    Abort(Abort),
}

/// Symbols to reveal, in groups.
#[derive(Debug)]
pub struct RevealSymbols(pub Vec<Vec<usize>>);

/// The revealed symbols, or a refusal.
#[derive(Debug)]
pub enum RevealSymbolsReply {
    Revealed(Vec<Vec<usize>>),
    Refused,
}

/// The follower's answer when the key registered as `(key_id, device_id)` with `expected_len`
/// bits is looked up and the key found is `found_id` with `found_len` bits: whether to go on,
/// and what to answer. The key is found, and processed, only when both its identity and its
/// length match; a key with another identity is not found, and a key of another length is a
/// length mismatch.
pub fn registration_reply(expected: (u128, u128), expected_len: usize, found_id: (u128, u128), found_len: usize) -> (r: (
    RegisterReply,
    bool,
))
    ensures
        found_id != expected ==> r == (RegisterReply::KeyNotFound(expected.0), false),
        found_id == expected && found_len != expected_len ==> r == (RegisterReply::LengthMismatch(expected.0), false),
        found_id == expected && found_len == expected_len ==> r == (RegisterReply::KeyFound(expected.0), true),
{
    if found_id.0 != expected.0 || found_id.1 != expected.1 {
        (RegisterReply::not_found(expected.0), false)
    } else if found_len != expected_len {
        (RegisterReply::LengthMismatch(expected.0), false)
    } else {
        (RegisterReply::KeyFound(expected.0), true)
    }
}

/// Whether the leader goes on with post-processing the key `key_id` after the follower's
/// answer: only when the answer is about this key and the key was found with its length.
pub fn leader_proceeds(reply: &RegisterReply, key_id: u128) -> (r: bool)
    ensures
        r == (reply.get_id_spec() == key_id && *reply is KeyFound),
{
    if reply.get_id() != key_id {
        return false;
    }
    match reply {
        RegisterReply::KeyFound(_) => true,
        RegisterReply::KeyNotFound(_) => false,
        RegisterReply::LengthMismatch(_) => false,
    }
}

impl RegisterReply {
    /// The key identifier the answer is about.
    pub open spec fn get_id_spec(&self) -> u128 {
        match *self {
            RegisterReply::KeyFound(id) => id,
            RegisterReply::KeyNotFound(id) => id,
            RegisterReply::LengthMismatch(id) => id,
        }
    }
}

/// The bits as `0` and `1` characters.
pub open spec fn bits_text(bits: Seq<bool>) -> Seq<char> {
    Seq::new(bits.len(), |i: int| if bits[i] { '1' } else { '0' })
}

/// The bits of a key as text, one `0` or `1` per bit.
pub fn key_text(bits: &[bool]) -> (r: String)
    ensures
        r@ == bits_text(bits@),
{
    let mut out = String::new();
    let mut i: usize = 0;
    while i < bits.len()
        invariant
            i <= bits.len(),
            out@ == bits_text(bits@).subrange(0, i as int),
        decreases bits.len() - i,
    {
        proof {
            reveal_strlit("0");
            reveal_strlit("1");
        }
        let ghost before = out@;
        if bits[i] {
            out.append("1");
        } else {
            out.append("0");
        }
        proof {
            assert(out@ =~= bits_text(bits@).subrange(0, i + 1));
        }
        i = i + 1;
    }
    proof {
        assert(bits_text(bits@).subrange(0, i as int) =~= bits_text(bits@));
    }
    out
}

} // verus!
