//! The follower's side of post-processing one key: it answers the leader's requests until
//! privacy amplification produces the secret key.

use vstd::prelude::*;

use crate::bits::{calc_syndrome, parity};
use crate::key_state::{mismatches, unrevealed, Key, KeyData, Reconciling, Secret};
use crate::protocol::{FollowerRequests, FollowerResponse};
use crate::simcommsys::{bit_lists, key_blocks, split_blocks, total_len};
use crate::toeplitz::toeplitz_hash;

verus! {

/// What the follower does after a request.
pub enum FollowerAction {
    /// Send this response and wait for the next request.
    Respond(FollowerResponse),
    /// Post-processing is over: the secret key, or `None` when privacy amplification failed.
    Finished(Option<Key<Secret>>),
    /// Register the LDPC code of this name with the decoding service, then report its block
    /// length and whether registration succeeded with `code_registered`.
    RegisterCode(String),
    /// Ask the decoding service for the syndrome of each of these blocks of the key under the
    /// code of this name, then hand them to `syndromes_computed`.
    ComputeSyndromes(String, Vec<Vec<bool>>),
    /// The request cannot be answered (syndromes asked before a code was registered):
    /// post-processing ends with an error.
    Abort,
}

/// The follower's state while post-processing one key.
pub struct FollowerSession {
    key: Option<Key<Reconciling>>,
    leaked_bits: usize,
    final_key_length: usize,
    code_block: Option<usize>,
}

/// The parities of `key` over each list of positions.
pub open spec fn syndromes(key: Seq<bool>, lists: Seq<Seq<usize>>) -> Seq<bool> {
    Seq::new(lists.len(), |i: int| parity(key, lists[i]))
}

/// The bits of `key` at the positions `idx`.
pub open spec fn revealed_bits(key: Seq<bool>, idx: Seq<usize>) -> Seq<bool> {
    Seq::new(idx.len(), |i: int| key[idx[i] as int])
}

/// The lists of positions as sequences.
pub open spec fn index_lists(v: Seq<Vec<usize>>) -> Seq<Seq<usize>> {
    v.map_values(|x: Vec<usize>| x@)
}

impl FollowerSession {
    /// The bits of the key, while the session is open.
    pub closed spec fn bits(&self) -> Seq<bool> {
        self.key.unwrap().bits()
    }

    /// Whether the session still holds its key, with no bit revealed and not yet removed.
    pub closed spec fn open(&self) -> bool {
        self.key matches Some(k) && k.stage().revealed_bits@.len() == 0
    }

    /// The number of bits leaked through syndromes so far.
    pub closed spec fn leaked(&self) -> int {
        self.leaked_bits as int
    }

    /// The length the key had when the last syndromes were computed (at first, its length).
    pub closed spec fn final_length(&self) -> int {
        self.final_key_length as int
    }

    /// The block length of the LDPC code registered with the decoding service, once one is.
    pub closed spec fn code_block(&self) -> Option<usize> {
        self.code_block
    }

    /// The trailing bits of the key that fill no whole block of the registered code.
    pub open spec fn leftover(&self) -> int {
        (self.bits().len() as int) % (self.code_block().unwrap() as int)
    }

    /// `next` holds the same key, leak count, final length and code as `self`.
    pub open spec fn keeps(&self, next: &Self) -> bool {
        &&& next.open() == self.open()
        &&& next.bits() == self.bits()
        &&& next.leaked() == self.leaked()
        &&& next.final_length() == self.final_length()
        &&& next.code_block() == self.code_block()
    }

    /// A session for a key about to be reconciled.
    pub fn new(key: Key<Reconciling>) -> (r: Self)
        requires
            key.stage().revealed_bits@.len() == 0,
        ensures
            r.open(),
            r.bits() == key.bits(),
            r.leaked() == 0,
            r.final_length() == key.bits().len(),
            r.code_block() is None,
    {
        let n = key.length();
        FollowerSession { key: Some(key), leaked_bits: 0, final_key_length: n, code_block: None }
    }

    /// The request can be served: every position it names is in the key, the leak count
    /// does not overflow, and privacy amplification cuts the key to no more bits than it has,
    /// and to at least one bit where the matrix takes no input bits.
    pub open spec fn serves(&self, request: &FollowerRequests) -> bool {
        match request {
            FollowerRequests::Reveal(idx) => forall|i: int| 0 <= i < idx.len() ==> #[trigger] idx[i] < self.bits().len(),
            FollowerRequests::Syndrome(lists) => {
                &&& self.leaked() + lists.len() <= usize::MAX
                &&& forall|i: int, j: int|
                    0 <= i < lists.len() && 0 <= j < lists[i].len() ==> #[trigger] lists[i][j] < self.bits().len()
            },
            FollowerRequests::PrivacyAmplification(t) => (t.input_len() > 0 || self.final_length() > 0) && self.final_length()
                <= self.bits().len(),
            FollowerRequests::SCSSyndrome(_) => self.code_block() matches Some(b) ==> b > 0,
            FollowerRequests::SCSRegisterCode(_) => true,
        }
    }

    /// Whether `request` can be answered: every position it names lies in the key, the
    /// count of leaked bits stays in range, and privacy amplification cuts the key to no
    /// more than it holds and does not hash an empty key with a matrix without input bits.
    pub fn serves_request(&self, request: &FollowerRequests) -> (r: bool)
        requires
            self.open(),
        ensures
            r == self.serves(request),
    {
        let n = self.key.as_ref().unwrap().length();
        match request {
            FollowerRequests::Reveal(idx) => {
                let mut i: usize = 0;
                while i < idx.len()
                    invariant
                        i <= idx.len(),
                        n == self.bits().len(),
                        request matches FollowerRequests::Reveal(v) && v@ == idx@,
                        forall|k: int| 0 <= k < i ==> #[trigger] idx[k] < n,
                    decreases idx.len() - i,
                {
                    if idx[i] >= n {
                        proof {
                            assert(!(idx[i as int] < self.bits().len()));
                        }
                        return false;
                    }
                    i = i + 1;
                }
                true
            },
            FollowerRequests::Syndrome(lists) => {
                if lists.len() > usize::MAX - self.leaked_bits {
                    return false;
                }
                let mut a: usize = 0;
                while a < lists.len()
                    invariant
                        a <= lists.len(),
                        n == self.bits().len(),
                        request matches FollowerRequests::Syndrome(v) && v@ == lists@,
                        self.leaked() + lists.len() <= usize::MAX,
                        forall|x: int, y: int| 0 <= x < a && 0 <= y < lists[x].len() ==> #[trigger] lists[x][y] < n,
                    decreases lists.len() - a,
                {
                    let mut b: usize = 0;
                    while b < lists[a].len()
                        invariant
                            a < lists.len(),
                            b <= lists[a as int].len(),
                            n == self.bits().len(),
                            request matches FollowerRequests::Syndrome(v) && v@ == lists@,
                            self.leaked() + lists.len() <= usize::MAX,
                            forall|x: int, y: int| 0 <= x < a && 0 <= y < lists[x].len() ==> #[trigger] lists[x][y] < n,
                            forall|y: int| 0 <= y < b ==> #[trigger] lists[a as int][y] < n,
                        decreases lists[a as int].len() - b,
                    {
                        if lists[a][b] >= n {
                            proof {
                                assert(!(lists[a as int][b as int] < self.bits().len()));
                            }
                            return false;
                        }
                        b = b + 1;
                    }
                    a = a + 1;
                }
                true
            },
            FollowerRequests::PrivacyAmplification(t) => (t.n_input() > 0 || self.final_key_length > 0) && self.final_key_length <= n,
            FollowerRequests::SCSSyndrome(_) => match self.code_block {
                Some(b) => b > 0,
                None => true,
            },
            FollowerRequests::SCSRegisterCode(_) => true,
        }
    }

    /// Answers one request of the leader.
    ///
    /// `Reveal` answers the bits at the positions and then removes them from the key;
    /// `Syndrome` answers the parities over each list, counts one leaked bit per list and
    /// records the key's length; `PrivacyAmplification` reconciles the key cut to that length
    /// with the leaked bits counted, hashes it and ends the session.
    /// `SCSRegisterCode` asks for the code to be registered with the decoding service;
    /// `SCSSyndrome` asks for the syndromes of the key's whole blocks under the registered
    /// code, and is refused before a code is registered. A key whose length does not match the
    /// matrix ends the session without a secret key.
    pub fn handle(&mut self, request: FollowerRequests) -> (r: FollowerAction)
        requires
            old(self).open(),
            old(self).serves(&request),
        ensures
            match request {
                FollowerRequests::Reveal(idx) => {
                    &&& r matches FollowerAction::Respond(FollowerResponse::Reveal(b)) && b@ == revealed_bits(old(self).bits(), idx@)
                    &&& final(self).open()
                    &&& final(self).bits() == unrevealed(old(self).bits(), idx@, old(self).bits().len() as int)
                    &&& final(self).leaked() == old(self).leaked()
                    &&& final(self).final_length() == old(self).final_length()
                    &&& final(self).code_block() == old(self).code_block()
                },
                FollowerRequests::Syndrome(lists) => {
                    &&& r matches FollowerAction::Respond(FollowerResponse::Syndrome(s)) && s@ == syndromes(old(self).bits(), index_lists(lists@))
                    &&& final(self).open()
                    &&& final(self).bits() == old(self).bits()
                    &&& final(self).leaked() == old(self).leaked() + lists.len()
                    &&& final(self).final_length() == old(self).bits().len()
                    &&& final(self).code_block() == old(self).code_block()
                },
                FollowerRequests::PrivacyAmplification(t) => {
                    let data = old(self).bits().subrange(0, old(self).final_length());
                    &&& !final(self).open()
                    &&& r matches FollowerAction::Finished(secret)
                    &&& (data.len() == t.input_len()) == (secret is Some)
                    &&& secret matches Some(k) ==> k.bits() == toeplitz_hash(t.diagonals(), data, t.input_len(), t.output_len())
                },
                FollowerRequests::SCSRegisterCode(id) => r == FollowerAction::RegisterCode(id) && old(self).keeps(
                    &*final(self),
                ),
                FollowerRequests::SCSSyndrome(id) => old(self).keeps(&*final(self)) && match old(self).code_block() {
                    None => r is Abort,
                    Some(b) => r matches FollowerAction::ComputeSyndromes(c, blocks) && c == id && bit_lists(blocks@)
                        == key_blocks(old(self).bits(), b as int),
                },
            },
    {
        match request {
            FollowerRequests::Reveal(idx) => {
                let mut key = self.key.take().unwrap();
                let ghost before = key.bits();
                let mut out: Vec<bool> = Vec::new();
                let mut j: usize = 0;
                while j < idx.len()
                    invariant
                        j <= idx.len(),
                        key.bits() == before,
                        forall|i: int| 0 <= i < idx.len() ==> #[trigger] idx[i] < before.len(),
                        key.stage().revealed_bits@ == idx@.subrange(0, j as int),
                        out@ == revealed_bits(before, idx@).subrange(0, j as int),
                    decreases idx.len() - j,
                {
                    let b = key.reveal_bit(idx[j]);
                    proof {
                        assert(idx@.subrange(0, j + 1) =~= idx@.subrange(0, j as int).push(idx[j as int]));
                        assert(revealed_bits(before, idx@).subrange(0, j + 1) =~= revealed_bits(before, idx@).subrange(
                            0,
                            j as int,
                        ).push(before[idx[j as int] as int]));
                    }
                    out.push(b.unwrap());
                    j = j + 1;
                }
                proof {
                    assert(idx@.subrange(0, j as int) =~= idx@);
                    assert(revealed_bits(before, idx@).subrange(0, j as int) =~= revealed_bits(before, idx@));
                }
                key.remove_revealed();
                self.key = Some(key);
                FollowerAction::Respond(FollowerResponse::Reveal(out))
            },
            FollowerRequests::Syndrome(lists) => {
                let key = self.key.take().unwrap();
                let ghost bits = key.bits();
                let data = key.get_interior_ref();
                let mut out: Vec<bool> = Vec::new();
                let mut i: usize = 0;
                while i < lists.len()
                    invariant
                        i <= lists.len(),
                        data@ == bits,
                        forall|a: int, b: int|
                            0 <= a < lists.len() && 0 <= b < lists[a].len() ==> #[trigger] lists[a][b] < bits.len(),
                        out@ == syndromes(bits, index_lists(lists@)).subrange(0, i as int),
                    decreases lists.len() - i,
                {
                    proof {
                        assert forall|b: int| 0 <= b < lists[i as int].len() implies #[trigger] lists[i as int]@[b] < data.len() by {
                            assert(lists[i as int][b] < bits.len());
                        }
                    }
                    let s = calc_syndrome(lists[i].as_slice(), data.as_slice());
                    proof {
                        assert(syndromes(bits, index_lists(lists@)).subrange(0, i + 1) =~= syndromes(
                            bits,
                            index_lists(lists@),
                        ).subrange(0, i as int).push(s));
                    }
                    out.push(s);
                    i = i + 1;
                }
                proof {
                    assert(syndromes(bits, index_lists(lists@)).subrange(0, i as int) =~= syndromes(
                        bits,
                        index_lists(lists@),
                    ));
                }
                self.leaked_bits = self.leaked_bits + lists.len();
                self.final_key_length = key.length();
                self.key = Some(key);
                FollowerAction::Respond(FollowerResponse::Syndrome(out))
            },
            FollowerRequests::PrivacyAmplification(t) => {
                let key = self.key.take().unwrap();
                let n = self.final_key_length;
                let full = key.get_interior_ref();
                let mut data: Vec<bool> = Vec::new();
                let mut i: usize = 0;
                while i < n
                    invariant
                        i <= n,
                        n <= full.len(),
                        data@ == full@.subrange(0, i as int),
                    decreases n - i,
                {
                    data.push(full[i]);
                    i = i + 1;
                    proof {
                        assert(data@ =~= full@.subrange(0, i as int));
                    }
                }
                let reconciled = key.reconcile(KeyData(data), self.leaked_bits);
                match reconciled.privacy_amplification(&t) {
                    Ok(secret) => FollowerAction::Finished(Some(secret)),
                    Err(_) => FollowerAction::Finished(None),
                }
            },
            FollowerRequests::SCSRegisterCode(id) => FollowerAction::RegisterCode(id),
            FollowerRequests::SCSSyndrome(id) => match self.code_block {
                None => FollowerAction::Abort,
                Some(b) => {
                    let blocks = split_blocks(self.key.as_ref().unwrap().get_interior_ref(), b);
                    FollowerAction::ComputeSyndromes(id, blocks)
                },
            },
        }
    }

    /// The number of bits leaked so far.
    pub fn leaked_bits(&self) -> (r: usize)
        ensures
            r == self.leaked(),
    {
        self.leaked_bits
    }

    /// The number of bits of the key.
    pub fn key_length(&self) -> (r: usize)
        requires
            self.open(),
        ensures
            r == self.bits().len(),
    {
        self.key.as_ref().unwrap().length()
    }

    /// The block length of the registered code, once one is.
    pub fn registered_block(&self) -> (r: Option<usize>)
        ensures
            r == self.code_block(),
    {
        self.code_block
    }

    /// The decoding service registered, or failed to register, the requested code, whose
    /// blocks have `block_length` bits: the code is the session's from now on, and the
    /// outcome is answered.
    pub fn code_registered(&mut self, block_length: usize, success: bool) -> (r: FollowerAction)
        requires
            old(self).open(),
        ensures
            r == FollowerAction::Respond(FollowerResponse::SCSRegisterCode(success)),
            final(self).open(),
            final(self).bits() == old(self).bits(),
            final(self).leaked() == old(self).leaked(),
            final(self).final_length() == old(self).final_length(),
            final(self).code_block() == Some(block_length),
    {
        self.code_block = Some(block_length);
        FollowerAction::Respond(FollowerResponse::SCSRegisterCode(success))
    }

    /// The decoding service computed the syndromes of the key's whole blocks: the key is to
    /// be cut to those blocks, dropping the `r` trailing bits that fill none, and the leaked
    /// bits grow by the syndrome bits less those `r` bits; the syndromes are answered.
    pub fn syndromes_computed(&mut self, syndromes: Vec<Vec<bool>>) -> (r: FollowerAction)
        requires
            old(self).open(),
            old(self).code_block() matches Some(b) && b > 0,
            total_len(bit_lists(syndromes@)) <= usize::MAX,
            total_len(bit_lists(syndromes@)) >= old(self).leftover(),
            old(self).leaked() + total_len(bit_lists(syndromes@)) - old(self).leftover() <= usize::MAX,
        ensures
            r == FollowerAction::Respond(FollowerResponse::SCSSyndrome(Some(syndromes))),
            final(self).open(),
            final(self).bits() == old(self).bits(),
            final(self).code_block() == old(self).code_block(),
            final(self).leaked() == old(self).leaked() + total_len(bit_lists(syndromes@)) - old(self).leftover(),
            final(self).final_length() == old(self).bits().len() - old(self).leftover(),
    {
        let b = self.code_block.unwrap();
        let n = self.key.as_ref().unwrap().length();
        let rem = n % b;
        proof {
            vstd::arithmetic::div_mod::lemma_mod_decreases(n as nat, b as nat);
        }
        let ghost ss = bit_lists(syndromes@);
        let mut total: usize = 0;
        let mut i: usize = 0;
        proof {
            lemma_total_len_prefix(ss, 0);
            assert(ss.subrange(0, 0) =~= Seq::<Seq<bool>>::empty());
        }
        while i < syndromes.len()
            invariant
                i <= syndromes.len(),
                ss == bit_lists(syndromes@),
                total == total_len(ss.subrange(0, i as int)),
                total_len(ss) <= usize::MAX,
                total_len(ss.subrange(0, i as int)) <= total_len(ss),
            decreases syndromes.len() - i,
        {
            proof {
                assert(ss.subrange(0, i + 1).drop_last() =~= ss.subrange(0, i as int));
                lemma_total_len_prefix(ss, i + 1);
            }
            total = total + syndromes[i].len();
            i = i + 1;
        }
        proof {
            assert(ss.subrange(0, i as int) =~= ss);
        }
        self.leaked_bits = self.leaked_bits + (total - rem);
        self.final_key_length = n - rem;
        FollowerAction::Respond(FollowerResponse::SCSSyndrome(Some(syndromes)))
    }
}

proof fn lemma_total_len_prefix(ss: Seq<Seq<bool>>, k: int)
    requires
        0 <= k <= ss.len(),
    ensures
        total_len(ss.subrange(0, k)) <= total_len(ss),
        total_len(ss.subrange(0, k)) >= 0,
    decreases ss.len() - k,
{
    if k < ss.len() {
        lemma_total_len_prefix(ss, k + 1);
        assert(ss.subrange(0, k + 1).drop_last() =~= ss.subrange(0, k));
    } else {
        assert(ss.subrange(0, k) =~= ss);
    }
    lemma_total_len_nonneg(ss.subrange(0, k));
}

proof fn lemma_total_len_nonneg(ss: Seq<Seq<bool>>)
    ensures
        total_len(ss) >= 0,
    decreases ss.len(),
{
    if ss.len() > 0 {
        lemma_total_len_nonneg(ss.drop_last());
    }
}

} // verus!
