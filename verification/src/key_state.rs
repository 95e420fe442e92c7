//! The key state machine: a key moves from `Sifted` through `Verified`, `Reconciling` and
//! `Reconciled` to `Secret`, or is `Discarded`; each state carries what that stage needs.

use vstd::prelude::*;

use crate::error::{Error, ErrorKind};
use crate::matrices::{codeword, neighbours_below, GeneratorMatrix};
use crate::toeplitz::{toeplitz_hash, Toeplitz};

verus! {

/// A key as it comes out of sifting, with the number of bits already leaked.
#[derive(Default)]
pub struct Sifted {
    leaked_bits: usize,
}

/// A key some of whose bits were revealed.
pub struct PartiallyRevealed {
    pub revealed_bits: Vec<usize>,
}

/// A key under reconciliation, with the positions revealed so far.
pub struct Reconciling {
    pub revealed_bits: Vec<usize>,
}

/// A reconciled key: the number of bits leaked in total and the number of bits that
/// reconciliation corrected.
pub struct Reconciled {
    pub leaked_bits: usize,
    pub corrected_bits: usize,
}

/// A key after privacy amplification.
pub struct Secret {}

/// A key whose origin was verified.
pub struct Verified {}

/// A key that was given up.
pub struct Discarded {}

/// The state a key is in, as one value.
pub enum KeyStates {
    Sifted(Sifted),
    PartialReconciled(Reconciling),
    Reconciled(Reconciled),
    Secret(Secret),
}

/// The bits of a key.
pub struct KeyData(pub Vec<bool>);

/// A key in the state `T`, identified by its key and device identifiers.
pub struct Key<T> {
    device_id: u128,
    key_id: u128,
    data: KeyData,
    state: T,
}

impl<T> Key<T> {
    /// The bits of the key.
    pub closed spec fn bits(&self) -> Seq<bool> {
        self.data.0@
    }

    /// The device identifier.
    pub closed spec fn device(&self) -> u128 {
        self.device_id
    }

    /// The key identifier.
    pub closed spec fn id(&self) -> u128 {
        self.key_id
    }

    /// The state of the key.
    pub closed spec fn stage(&self) -> T {
        self.state
    }

    /// A copy of the bits.
    pub fn get_interior(&self) -> (r: Vec<bool>)
        ensures
            r@ == self.bits(),
    {
        self.data.0.clone()
    }

    /// The bits.
    pub fn get_interior_ref(&self) -> (r: &Vec<bool>)
        ensures
            r@ == self.bits(),
    {
        &self.data.0
    }

    /// The bits.
    pub fn as_keyref(&self) -> (r: &KeyData)
        ensures
            r.0@ == self.bits(),
    {
        &self.data
    }

    /// The device identifier.
    pub fn device_id(&self) -> (r: u128)
        ensures
            r == self.device(),
    {
        self.device_id
    }

    /// The key identifier.
    pub fn key_id(&self) -> (r: u128)
        ensures
            r == self.id(),
    {
        self.key_id
    }

    /// The number of bits.
    pub fn length(&self) -> (r: usize)
        ensures
            r == self.bits().len(),
    {
        self.data.0.len()
    }

    /// Gives the key up, keeping its bits and identifiers.
    pub fn discard(self) -> (r: Key<Discarded>)
        ensures
            r.bits() == self.bits(),
            r.id() == self.id(),
            r.device() == self.device(),
    {
        Key { data: self.data, key_id: self.key_id, device_id: self.device_id, state: Discarded {} }
    }
}

impl Sifted {
    /// The number of bits already leaked.
    pub closed spec fn leaked(&self) -> usize {
        self.leaked_bits
    }
}

impl Key<Sifted> {
    /// A sifted key.
    pub fn new(data: Vec<bool>, key_id: u128, device_id: u128, leaked_bits: usize) -> (r: Key<Sifted>)
        ensures
            r.bits() == data@,
            r.id() == key_id,
            r.device() == device_id,
            r.stage().leaked() == leaked_bits,
    {
        Key { data: KeyData(data), state: Sifted { leaked_bits }, key_id, device_id }
    }

    /// Marks the key as verified.
    pub fn verify(self) -> (r: Key<Verified>)
        ensures
            r.bits() == self.bits(),
            r.id() == self.id(),
            r.device() == self.device(),
    {
        Key { data: self.data, key_id: self.key_id, device_id: self.device_id, state: Verified {} }
    }
}

impl Key<Verified> {
    /// Starts reconciliation with no bit revealed.
    pub fn start_reconciliation(self) -> (r: Key<Reconciling>)
        ensures
            r.bits() == self.bits(),
            r.id() == self.id(),
            r.device() == self.device(),
            r.stage().revealed_bits@ == Seq::<usize>::empty(),
    {
        Key {
            data: self.data,
            key_id: self.key_id,
            device_id: self.device_id,
            state: Reconciling { revealed_bits: Vec::new() },
        }
    }
}

/// The number of positions below `n` where `a` and `b` differ.
pub open spec fn mismatches(a: Seq<bool>, b: Seq<bool>, n: int) -> nat
    decreases n,
{
    if n <= 0 {
        0
    } else {
        mismatches(a, b, n - 1) + if a[n - 1] != b[n - 1] {
            1nat
        } else {
            0nat
        }
    }
}

/// The bits of `data` at positions below `n` that are not in `revealed`, in order.
pub open spec fn unrevealed(data: Seq<bool>, revealed: Seq<usize>, n: int) -> Seq<bool>
    decreases n,
{
    if n <= 0 {
        Seq::empty()
    } else if revealed.contains((n - 1) as usize) {
        unrevealed(data, revealed, n - 1)
    } else {
        unrevealed(data, revealed, n - 1).push(data[n - 1])
    }
}

/// The words of `word_len` bits that `data` splits into, dropping the remainder.
pub open spec fn words_of(data: Seq<bool>, word_len: int) -> Seq<Seq<bool>> {
    Seq::new(((data.len() as int) / word_len) as nat, |i: int| data.subrange(i * word_len, (i + 1) * word_len))
}

impl Key<Reconciling> {
    /// The number of bits revealed and not yet removed.
    pub fn revealed_count(&self) -> (r: usize)
        ensures
            r == self.stage().revealed_bits.len(),
    {
        self.state.revealed_bits.len()
    }

    /// The reconciled key: `new` replaces the bits; the leak adds the revealed bits to
    /// `leaked_bits`, and the bits that differ between the old and new bits are counted.
    pub fn reconcile(self, new: KeyData, leaked_bits: usize) -> (r: Key<Reconciled>)
        requires
            self.stage().revealed_bits.len() + leaked_bits <= usize::MAX,
        ensures
            r.bits() == new.0@,
            r.id() == self.id(),
            r.device() == self.device(),
            r.stage().leaked_bits == self.stage().revealed_bits.len() + leaked_bits,
            r.stage().corrected_bits == mismatches(
                self.bits(),
                new.0@,
                if self.bits().len() <= new.0@.len() {
                    self.bits().len() as int
                } else {
                    new.0@.len() as int
                },
            ),
    {
        let n = if self.data.0.len() <= new.0.len() { self.data.0.len() } else { new.0.len() };
        let mut errors: usize = 0;
        let mut i: usize = 0;
        while i < n
            invariant
                i <= n,
                n <= self.data.0.len(),
                n <= new.0.len(),
                errors == mismatches(self.data.0@, new.0@, i as int),
                errors <= i,
            decreases n - i,
        {
            if self.data.0[i] != new.0[i] {
                errors = errors + 1;
            }
            i = i + 1;
        }
        Key {
            data: new,
            key_id: self.key_id,
            device_id: self.device_id,
            state: Reconciled {
                leaked_bits: self.state.revealed_bits.len() + leaked_bits,
                corrected_bits: errors,
            },
        }
    }

    /// Encodes the key word by word with `gen_matrix`: the codewords of the successive
    /// `word_len`-bit words and the bits left over, if any. Fails when a word cannot be encoded.
    pub fn codeword_chunks(&self, word_len: usize, codeword_len: usize, gen_matrix: &GeneratorMatrix) -> (r: Result<
        (Vec<Vec<bool>>, Option<Vec<bool>>),
        Error,
    >)
        requires
            word_len > 0,
        ensures
            ({
                let es = gen_matrix.matrix().factor_entries();
                let ok = word_len == es.len() && neighbours_below(es, codeword_len as int);
                let ws = words_of(self.bits(), word_len as int);
                let rem = self.bits().subrange(ws.len() * word_len, self.bits().len() as int);
                &&& (r is Ok <==> (ws.len() == 0 || ok))
                &&& r matches Err(e) ==> e.error_kind == ErrorKind::InconsistentData
                &&& r matches Ok((cws, tail)) ==> {
                    &&& cws.len() == ws.len()
                    &&& forall|i: int| 0 <= i < ws.len() ==> #[trigger] cws[i]@ == codeword(es, ws[i], codeword_len as int)
                    &&& (rem.len() == 0 ==> tail is None)
                    &&& (rem.len() > 0 ==> (tail matches Some(t) && t@ == rem))
                }
            }),
    {
        let data = &self.data.0;
        let ghost bits = data@;
        let ghost es = gen_matrix.matrix().factor_entries();
        let count = data.len() / word_len;
        let mut cws: Vec<Vec<bool>> = Vec::new();
        let mut i: usize = 0;
        while i < count
            invariant
                i <= count,
                count == data.len() / word_len,
                word_len > 0,
                bits == data@,
                bits == self.bits(),
                es == gen_matrix.matrix().factor_entries(),
                cws.len() == i,
                i > 0 ==> word_len == es.len() && neighbours_below(es, codeword_len as int),
                forall|t: int| 0 <= t < i ==> #[trigger] cws@[t]@ == codeword(es, words_of(bits, word_len as int)[t], codeword_len as int),
            decreases count - i,
        {
            proof {
                vstd::arithmetic::div_mod::lemma_fundamental_div_mod(data.len() as int, word_len as int);
                assert((i + 1) * word_len <= count * word_len) by (nonlinear_arith)
                    requires
                        i + 1 <= count,
                        word_len > 0,
                ;
                assert(i * word_len + word_len == (i + 1) * word_len) by (nonlinear_arith);
            }
            let start = i * word_len;
            let mut word: Vec<bool> = Vec::new();
            let mut j: usize = 0;
            while j < word_len
                invariant
                    j <= word_len,
                    start + word_len <= data.len(),
                    word@ == data@.subrange(start as int, start + j),
                decreases word_len - j,
            {
                word.push(data[start + j]);
                j = j + 1;
                proof {
                    assert(word@ =~= data@.subrange(start as int, start + j));
                }
            }
            proof {
                assert(word@ == words_of(bits, word_len as int)[i as int]);
            }
            match gen_matrix.generate_codeword(word.as_slice(), codeword_len) {
                None => {
                    proof {
                        assert(word@.len() == word_len);
                        assert(words_of(bits, word_len as int).len() == count);
                        assert(!(word_len == es.len() && neighbours_below(es, codeword_len as int)));
                    }
                    return Err(Error::new(ErrorKind::InconsistentData, codeword_failure_message()));
                },
                Some(c) => {
                    cws.push(c);
                },
            }
            i = i + 1;
        }
        proof {
            vstd::arithmetic::div_mod::lemma_fundamental_div_mod(data.len() as int, word_len as int);
            assert(count * word_len <= data.len()) by (nonlinear_arith)
                requires
                    data.len() == word_len * (data.len() / word_len) + data.len() % word_len,
                    count == data.len() / word_len,
                    data.len() % word_len >= 0,
            ;
        }
        let start = count * word_len;
        let tail = if start < data.len() {
            let mut t: Vec<bool> = Vec::new();
            let mut j = start;
            while j < data.len()
                invariant
                    start <= j <= data.len(),
                    t@ == data@.subrange(start as int, j as int),
                decreases data.len() - j,
            {
                t.push(data[j]);
                j = j + 1;
                proof {
                    assert(t@ =~= data@.subrange(start as int, j as int));
                }
            }
            Some(t)
        } else {
            None
        };
        Ok((cws, tail))
    }

    /// Reveals bit `idx` and records it as revealed; `None` when there is no such bit.
    pub fn reveal_bit(&mut self, idx: usize) -> (r: Option<bool>)
        ensures
            final(self).bits() == old(self).bits(),
            final(self).id() == old(self).id(),
            final(self).device() == old(self).device(),
            idx < old(self).bits().len() ==> r == Some(old(self).bits()[idx as int])
                && final(self).stage().revealed_bits@ == old(self).stage().revealed_bits@.push(idx),
            idx >= old(self).bits().len() ==> r is None && final(self).stage().revealed_bits@
                == old(self).stage().revealed_bits@,
    {
        if idx < self.data.0.len() {
            let v = self.data.0[idx];
            self.state.revealed_bits.push(idx);
            Some(v)
        } else {
            None
        }
    }

    /// Drops the revealed bits from the key and forgets them.
    pub fn remove_revealed(&mut self)
        ensures
            final(self).bits() == unrevealed(old(self).bits(), old(self).stage().revealed_bits@, old(self).bits().len() as int),
            final(self).stage().revealed_bits@ == Seq::<usize>::empty(),
            final(self).id() == old(self).id(),
            final(self).device() == old(self).device(),
    {
        let n = self.data.0.len();
        let mut mask: Vec<bool> = Vec::new();
        while mask.len() < n
            invariant
                mask.len() <= n,
                forall|i: int| 0 <= i < mask.len() ==> !#[trigger] mask@[i],
            decreases n - mask.len(),
        {
            mask.push(false);
        }
        let mut k: usize = 0;
        while k < self.state.revealed_bits.len()
            invariant
                k <= self.state.revealed_bits.len(),
                mask.len() == n,
                forall|i: int| 0 <= i < n ==> (#[trigger] mask@[i] == exists|t: int| 0 <= t < k && self.state.revealed_bits@[t] as int == i),
            decreases self.state.revealed_bits.len() - k,
        {
            let idx = self.state.revealed_bits[k];
            if idx < n {
                mask.set(idx, true);
            }
            proof {
                assert forall|i: int| 0 <= i < n implies (#[trigger] mask@[i] == exists|t: int| 0 <= t < k + 1 && self.state.revealed_bits@[t] as int == i) by {
                    if i == idx as int {
                        assert(self.state.revealed_bits@[k as int] as int == i);
                    } else if exists|t: int| 0 <= t < k + 1 && self.state.revealed_bits@[t] as int == i {
                        let t = choose|t: int| 0 <= t < k + 1 && self.state.revealed_bits@[t] as int == i;
                        assert(t < k);
                    }
                }
            }
            k = k + 1;
        }
        let mut kept: Vec<bool> = Vec::new();
        let mut i: usize = 0;
        while i < n
            invariant
                i <= n,
                n == self.data.0@.len(),
                mask.len() == n,
                self.data.0@ == old(self).data.0@,
                self.state.revealed_bits@ == old(self).state.revealed_bits@,
                forall|j: int| 0 <= j < n ==> (#[trigger] mask@[j] == exists|t: int| 0 <= t < self.state.revealed_bits@.len() && self.state.revealed_bits@[t] as int == j),
                kept@ == unrevealed(self.data.0@, self.state.revealed_bits@, i as int),
            decreases n - i,
        {
            proof {
                let r = self.state.revealed_bits@;
                if mask@[i as int] {
                    let t = choose|t: int| 0 <= t < r.len() && r[t] as int == i as int;
                    assert(r[t] == i);
                    assert(r.contains(i));
                } else {
                    assert(!r.contains(i)) by {
                        if r.contains(i) {
                            let t = choose|t: int| 0 <= t < r.len() && r[t] == i;
                            assert(r[t] as int == i as int);
                        }
                    }
                }
            }
            if !mask[i] {
                kept.push(self.data.0[i]);
            }
            i = i + 1;
        }
        self.data = KeyData(kept);
        self.state.revealed_bits = Vec::new();
    }
}

impl Key<Reconciled> {
    /// Privacy amplification: the secret key is the Toeplitz hash of the bits. Fails when the
    /// key does not have as many bits as the hash takes. A matrix without input bits has no
    /// windows to hash an empty key with.
    pub fn privacy_amplification(self, t: &Toeplitz) -> (r: Result<Key<Secret>, Error>)
        requires
            t.input_len() > 0 || self.bits().len() > 0,
        ensures
            r is Err <==> self.bits().len() != t.input_len(),
            r matches Err(e) ==> e.error_kind == ErrorKind::InconsistentData,
            r matches Ok(k) ==> k.bits() == toeplitz_hash(t.diagonals(), self.bits(), t.input_len(), t.output_len())
                && k.id() == self.id() && k.device() == self.device(),
    {
        let h = t.hash_data(self.data.0)?;
        Ok(Key { data: KeyData(h), key_id: self.key_id, device_id: self.device_id, state: Secret {} })
    }

    /// The number of bits leaked in total.
    pub fn leaked_bits(&self) -> (r: usize)
        ensures
            r == self.stage().leaked_bits,
    {
        self.state.leaked_bits
    }

    /// The number of bits that reconciliation corrected.
    pub fn corrected_bits(&self) -> (r: usize)
        ensures
            r == self.stage().corrected_bits,
    {
        self.state.corrected_bits
    }
}

fn codeword_failure_message() -> (r: String)
    ensures
        r@ == "Failed to construct codeword."@,
{
    "Failed to construct codeword.".to_owned()
}

} // verus!
