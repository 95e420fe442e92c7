//! Reconciliation with an LDPC code decoded by an external decoding service: the choice of
//! the code and the leader's state machine.

use vstd::prelude::*;

use crate::key_state::{Key, KeyData, Reconciled, Reconciling};
use crate::protocol::{FollowerRequests, FollowerResponse, PPError, PPStep};

verus! {

/// Where the parity matrix of a code is defined.
#[derive(Debug)]
pub enum MatrixDefinition {
    /// Dense rows.
    Array(Vec<Vec<u8>>),
    /// An alist file.
    AListFile(String),
}

/// An LDPC code known to the decoding service: its name, block length and parity matrix.
#[derive(Debug)]
pub struct CodeProperties {
    pub id: String,
    pub block_length: u64,
    pub matrix: MatrixDefinition,
}

/// The index of the chosen code among the first `k`: of the codes that suit the error rate
/// (`suits`) and whose block is not longer than the key, the first that leaves the fewest
/// trailing key bits outside whole blocks.
pub open spec fn best_code(lengths: Seq<u64>, suits: Seq<bool>, key_len: u64, k: int) -> Option<int>
    decreases k,
{
    if k <= 0 {
        None
    } else {
        let prev = best_code(lengths, suits, key_len, k - 1);
        let b = lengths[k - 1];
        if suits[k - 1] && 0 < b && b <= key_len && (prev is None || key_len % b < key_len % lengths[prev.unwrap()]) {
            Some(k - 1)
        } else {
            prev
        }
    }
}

/// The block lengths of the codes.
pub open spec fn block_lengths(codes: Seq<CodeProperties>) -> Seq<u64> {
    codes.map_values(|c: CodeProperties| c.block_length)
}

/// Picks the code for a key of `key_len` bits: among the codes whose error-rate range holds
/// the estimated rate (`suits[i]`) and whose block fits in the key, the one that wastes the
/// fewest key bits, those trailing bits that do not fill another block; the first such.
pub fn pick_code(codes: &[CodeProperties], suits: &[bool], key_len: u64) -> (r: Option<usize>)
    requires
        suits.len() == codes.len(),
    ensures
        r matches Some(i) ==> best_code(block_lengths(codes@), suits@, key_len, codes.len() as int) == Some(i as int),
        r is None ==> best_code(block_lengths(codes@), suits@, key_len, codes.len() as int) is None,
{
    let ghost ls = block_lengths(codes@);
    let mut best: Option<usize> = None;
    let mut i: usize = 0;
    while i < codes.len()
        invariant
            i <= codes.len(),
            suits.len() == codes.len(),
            ls == block_lengths(codes@),
            best matches Some(j) ==> best_code(ls, suits@, key_len, i as int) == Some(j as int) && j < i && 0 < ls[j as int],
            best is None ==> best_code(ls, suits@, key_len, i as int) is None,
        decreases codes.len() - i,
    {
        let b = codes[i].block_length;
        proof {
            assert(ls[i as int] == b);
        }
        if suits[i] && 0 < b && b <= key_len {
            let better = match best {
                None => true,
                Some(j) => {
                    proof {
                        assert(ls[j as int] == codes@[j as int].block_length);
                    }
                    key_len % b < key_len % codes[j].block_length
                },
            };
            if better {
                best = Some(i);
            }
        }
        i = i + 1;
    }
    best
}

/// What the follower is to do next.
#[derive(Debug, PartialEq, Eq, Clone, Copy, Structural)]
pub enum FollowerPendingStep {
    Register,
    GetSyndrome,
    DecodeKey,
}

/// What the stage needs next.
pub enum ScsStep {
    /// A request to the follower.
    GetUpdate(FollowerRequests),
    /// The decoding service is to correct each block of the key with the follower's syndrome.
    Decode(Vec<(Vec<bool>, Vec<bool>)>),
}

/// The blocks of `block` bits that `key` splits into, dropping the remainder.
pub open spec fn key_blocks(key: Seq<bool>, block: int) -> Seq<Seq<bool>> {
    Seq::new(((key.len() as int) / block) as nat, |i: int| key.subrange(i * block, (i + 1) * block))
}

/// The total length of the sequences.
pub open spec fn total_len(ss: Seq<Seq<bool>>) -> int
    decreases ss.len(),
{
    if ss.len() == 0 {
        0
    } else {
        total_len(ss.drop_last()) + ss.last().len()
    }
}

/// The sequences one after another.
pub open spec fn concat(ss: Seq<Seq<bool>>) -> Seq<bool>
    decreases ss.len(),
{
    if ss.len() == 0 {
        Seq::empty()
    } else {
        concat(ss.drop_last()) + ss.last()
    }
}

/// The views of a list of bit vectors.
pub open spec fn bit_lists(v: Seq<Vec<bool>>) -> Seq<Seq<bool>> {
    v.map_values(|x: Vec<bool>| x@)
}

/// The whole blocks of `block` bits of `data`, in order; the trailing bits that do not fill
/// a block are left out.
pub fn split_blocks(data: &Vec<bool>, block: usize) -> (r: Vec<Vec<bool>>)
    requires
        block > 0,
    ensures
        bit_lists(r@) == key_blocks(data@, block as int),
{
    let count = data.len() / block;
    let ghost blocks = key_blocks(data@, block as int);
    let mut out: Vec<Vec<bool>> = Vec::new();
    let mut k: usize = 0;
    while k < count
        invariant
            k <= count,
            count == data.len() / block,
            block > 0,
            blocks == key_blocks(data@, block as int),
            out.len() == k,
            forall|t: int| 0 <= t < k ==> (#[trigger] out@[t])@ == blocks[t],
        decreases count - k,
    {
        proof {
            vstd::arithmetic::div_mod::lemma_fundamental_div_mod(data.len() as int, block as int);
            assert((k + 1) * block <= count * block) by (nonlinear_arith)
                requires
                    k + 1 <= count,
                    block > 0,
            ;
            assert(k * block + block == (k + 1) * block) by (nonlinear_arith);
        }
        let start = k * block;
        let mut cw: Vec<bool> = Vec::new();
        let mut j: usize = 0;
        while j < block
            invariant
                j <= block,
                start + block <= data.len(),
                cw@ == data@.subrange(start as int, start + j),
            decreases block - j,
        {
            cw.push(data[start + j]);
            j = j + 1;
            proof {
                assert(cw@ =~= data@.subrange(start as int, start + j));
            }
        }
        proof {
            assert(cw@ == blocks[k as int]);
        }
        out.push(cw);
        k = k + 1;
    }
    proof {
        assert(bit_lists(out@) =~= blocks);
    }
    out
}

/// The leader's side of reconciliation with the decoding service: the follower registers
/// the code and sends the syndromes of its blocks; the service decodes the leader's blocks.
pub struct SimCommSys {
    code_id: String,
    block_length: usize,
    key: Key<Reconciling>,
    corrected_key: Option<Vec<bool>>,
    leaked_bits: usize,
    follower_syndromes: Option<Vec<Vec<bool>>>,
    follower_next_step: FollowerPendingStep,
}

impl SimCommSys {
    /// The pending step of the follower.
    pub closed spec fn pending(&self) -> FollowerPendingStep {
        self.follower_next_step
    }

    /// The key.
    pub closed spec fn key_bits(&self) -> Seq<bool> {
        self.key.bits()
    }

    /// The follower's syndromes, once received.
    pub closed spec fn syndromes(&self) -> Option<Seq<Seq<bool>>> {
        match self.follower_syndromes {
            Some(s) => Some(bit_lists(s@)),
            None => None,
        }
    }

    /// The corrected key, once decoded.
    pub closed spec fn corrected(&self) -> Option<Seq<bool>> {
        match self.corrected_key {
            Some(k) => Some(k@),
            None => None,
        }
    }

    /// The number of bits leaked so far.
    pub closed spec fn leaked(&self) -> int {
        self.leaked_bits as int
    }

    /// The block length of the code.
    pub closed spec fn block(&self) -> int {
        self.block_length as int
    }

    /// The name of the code.
    pub closed spec fn code(&self) -> Seq<char> {
        self.code_id@
    }

    /// A corrected key comes with the syndromes it was corrected with, no bit of the key is
    /// revealed, and blocks are not empty.
    pub closed spec fn wf(&self) -> bool {
        &&& (self.corrected_key is Some ==> self.follower_syndromes is Some)
        &&& self.key.stage().revealed_bits@.len() == 0
        &&& self.block_length > 0
    }

    /// The stage for `key` with the code of the given name and block length.
    pub fn new(code_id: String, block_length: usize, key: Key<Reconciling>) -> (r: Self)
        requires
            block_length > 0,
            key.stage().revealed_bits@.len() == 0,
        ensures
            r.wf(),
            r.pending() == FollowerPendingStep::Register,
            r.key_bits() == key.bits(),
            r.syndromes() is None,
            r.corrected() is None,
            r.leaked() == 0,
            r.block() == block_length,
            r.code() == code_id@,
    {
        SimCommSys {
            code_id,
            block_length,
            key,
            corrected_key: None,
            leaked_bits: 0,
            follower_syndromes: None,
            follower_next_step: FollowerPendingStep::Register,
        }
    }

    /// The number of bits leaked so far.
    pub fn leaked_bits(&self) -> (r: usize)
        ensures
            r == self.leaked(),
    {
        self.leaked_bits
    }

    /// Asks the follower to register the code, then for its syndromes; then splits the key
    /// into blocks, counts the syndrome bits as leaked, and asks for each block to be decoded
    /// with its syndrome. Fails without syndromes, or when there are not as many syndromes as
    /// blocks.
    pub fn step(&mut self) -> (r: Result<ScsStep, PPError>)
        requires
            old(self).wf(),
            old(self).syndromes() matches Some(ss) ==> old(self).leaked() + total_len(ss) <= usize::MAX,
        ensures
            final(self).wf(),
            final(self).pending() == old(self).pending(),
            final(self).key_bits() == old(self).key_bits(),
            final(self).syndromes() == old(self).syndromes(),
            final(self).corrected() == old(self).corrected(),
            final(self).block() == old(self).block(),
            final(self).code() == old(self).code(),
            old(self).pending() == FollowerPendingStep::Register ==> final(self).leaked() == old(self).leaked()
                && (r matches Ok(ScsStep::GetUpdate(FollowerRequests::SCSRegisterCode(c))) && c@ == old(self).code()),
            old(self).pending() == FollowerPendingStep::GetSyndrome ==> final(self).leaked() == old(self).leaked()
                && (r matches Ok(ScsStep::GetUpdate(FollowerRequests::SCSSyndrome(c))) && c@ == old(self).code()),
            old(self).pending() == FollowerPendingStep::DecodeKey ==> match old(self).syndromes() {
                None => final(self).leaked() == old(self).leaked() && (r matches Err(e) && e.message()@
                    == "Reached decoding step, but no syndromes were yet retrieved from the follower"@),
                Some(ss) => {
                    let blocks = key_blocks(old(self).key_bits(), old(self).block());
                    &&& final(self).leaked() == old(self).leaked() + total_len(ss)
                    &&& (ss.len() == blocks.len()) == (r is Ok)
                    &&& r matches Err(e) ==> e.message()@ == "Syndromes and codewords quantity mismatch. Cannot proceed"@
                    &&& r matches Ok(ScsStep::Decode(work)) ==> work.len() == blocks.len() && forall|i: int|
                        0 <= i < blocks.len() ==> (#[trigger] work[i]).0@ == blocks[i] && work[i].1@ == ss[i]
                },
            },
    {
        match self.follower_next_step {
            FollowerPendingStep::Register => Ok(ScsStep::GetUpdate(FollowerRequests::SCSRegisterCode(self.code_id.clone()))),
            FollowerPendingStep::GetSyndrome => Ok(ScsStep::GetUpdate(FollowerRequests::SCSSyndrome(self.code_id.clone()))),
            FollowerPendingStep::DecodeKey => {
                let syndromes = match &self.follower_syndromes {
                    None => {
                        return Err(PPError::new(
                            "Reached decoding step, but no syndromes were yet retrieved from the follower",
                        ));
                    },
                    Some(s) => s,
                };
                let ghost ss = bit_lists(syndromes@);
                let mut total: usize = 0;
                let mut i: usize = 0;
                proof {
                    lemma_total_len_prefix(ss, 0);
                    assert(ss.subrange(0, 0) =~= Seq::<Seq<bool>>::empty());
                }
                while i < syndromes.len()
                    invariant
                        i <= syndromes.len(),
                        ss == bit_lists(syndromes@),
                        total == total_len(ss.subrange(0, i as int)),
                        self.leaked_bits + total_len(ss) <= usize::MAX,
                        total_len(ss.subrange(0, i as int)) <= total_len(ss),
                    decreases syndromes.len() - i,
                {
                    proof {
                        assert(ss.subrange(0, i + 1).drop_last() =~= ss.subrange(0, i as int));
                        lemma_total_len_prefix(ss, i + 1);
                    }
                    total = total + syndromes[i].len();
                    i = i + 1;
                }
                proof {
                    assert(ss.subrange(0, i as int) =~= ss);
                }
                self.leaked_bits = self.leaked_bits + total;
                let data = self.key.get_interior_ref();
                let block = self.block_length;
                let count = data.len() / block;
                if syndromes.len() != count {
                    return Err(PPError::new("Syndromes and codewords quantity mismatch. Cannot proceed"));
                }
                let ghost blocks = key_blocks(data@, block as int);
                let mut work: Vec<(Vec<bool>, Vec<bool>)> = Vec::new();
                let mut k: usize = 0;
                while k < count
                    invariant
                        k <= count,
                        count == data.len() / block,
                        block > 0,
                        count == syndromes.len(),
                        ss == bit_lists(syndromes@),
                        blocks == key_blocks(data@, block as int),
                        work.len() == k,
                        forall|t: int| 0 <= t < k ==> (#[trigger] work@[t]).0@ == blocks[t] && work@[t].1@ == ss[t],
                    decreases count - k,
                {
                    proof {
                        vstd::arithmetic::div_mod::lemma_fundamental_div_mod(data.len() as int, block as int);
                        assert((k + 1) * block <= count * block) by (nonlinear_arith)
                            requires
                                k + 1 <= count,
                                block > 0,
                        ;
                        assert(k * block + block == (k + 1) * block) by (nonlinear_arith);
                    }
                    let start = k * block;
                    let mut cw: Vec<bool> = Vec::new();
                    let mut j: usize = 0;
                    while j < block
                        invariant
                            j <= block,
                            start + block <= data.len(),
                            cw@ == data@.subrange(start as int, start + j),
                        decreases block - j,
                    {
                        cw.push(data[start + j]);
                        j = j + 1;
                        proof {
                            assert(cw@ =~= data@.subrange(start as int, start + j));
                        }
                    }
                    let s = syndromes[k].clone();
                    proof {
                        assert(cw@ == blocks[k as int]);
                        assert(s@ == ss[k as int]);
                    }
                    work.push((cw, s));
                    k = k + 1;
                }
                Ok(ScsStep::Decode(work))
            },
        }
    }

    /// The decoded blocks, one after another, are the corrected key.
    pub fn decoded(&mut self, corrected: Vec<Vec<bool>>) -> (r: PPStep<(), FollowerRequests>)
        requires
            old(self).wf(),
            old(self).syndromes() is Some,
        ensures
            final(self).wf(),
            r is Result,
            final(self).corrected() == Some(concat(bit_lists(corrected@))),
            final(self).pending() == old(self).pending(),
            final(self).key_bits() == old(self).key_bits(),
            final(self).syndromes() == old(self).syndromes(),
            final(self).leaked() == old(self).leaked(),
    {
        let ghost cs = bit_lists(corrected@);
        let mut key: Vec<bool> = Vec::new();
        let mut i: usize = 0;
        while i < corrected.len()
            invariant
                i <= corrected.len(),
                cs == bit_lists(corrected@),
                key@ == concat(cs.subrange(0, i as int)),
            decreases corrected.len() - i,
        {
            let c = &corrected[i];
            let ghost before = key@;
            let mut j: usize = 0;
            while j < c.len()
                invariant
                    j <= c.len(),
                    key@ == before + c@.subrange(0, j as int),
                decreases c.len() - j,
            {
                key.push(c[j]);
                j = j + 1;
                proof {
                    assert(key@ =~= before + c@.subrange(0, j as int));
                }
            }
            proof {
                assert(cs.subrange(0, i + 1).drop_last() =~= cs.subrange(0, i as int));
                assert(c@.subrange(0, j as int) =~= c@);
            }
            i = i + 1;
        }
        proof {
            assert(cs.subrange(0, i as int) =~= cs);
        }
        self.corrected_key = Some(key);
        PPStep::Result(())
    }

    /// Takes the follower's response: a successful registration leads to asking for the
    /// syndromes, and the syndromes lead to decoding.
    pub fn update(&mut self, response: FollowerResponse) -> (r: Result<(), PPError>)
        requires
            old(self).wf(),
        ensures
            final(self).wf(),
            final(self).key_bits() == old(self).key_bits(),
            final(self).corrected() == old(self).corrected(),
            final(self).leaked() == old(self).leaked(),
            final(self).block() == old(self).block(),
            final(self).code() == old(self).code(),
            match (old(self).pending(), response) {
                (FollowerPendingStep::Register, FollowerResponse::SCSRegisterCode(true)) => r is Ok
                    && final(self).pending() == FollowerPendingStep::GetSyndrome && final(self).syndromes() == old(self).syndromes(),
                (FollowerPendingStep::GetSyndrome, FollowerResponse::SCSSyndrome(Some(s))) => r is Ok
                    && final(self).pending() == FollowerPendingStep::DecodeKey && final(self).syndromes() == Some(bit_lists(s@)),
                _ => r is Err && final(self).pending() == old(self).pending() && final(self).syndromes() == old(self).syndromes(),
            },
    {
        match (self.follower_next_step, response) {
            (FollowerPendingStep::Register, FollowerResponse::SCSRegisterCode(true)) => {
                self.follower_next_step = FollowerPendingStep::GetSyndrome;
                Ok(())
            },
            (FollowerPendingStep::Register, FollowerResponse::SCSRegisterCode(false)) => Err(
                PPError::new("Follower SimCommSys code registration failed."),
            ),
            (FollowerPendingStep::GetSyndrome, FollowerResponse::SCSSyndrome(Some(syndromes))) => {
                self.follower_next_step = FollowerPendingStep::DecodeKey;
                self.follower_syndromes = Some(syndromes);
                Ok(())
            },
            (FollowerPendingStep::GetSyndrome, FollowerResponse::SCSSyndrome(None)) => Err(
                PPError::new("Follower failed to compute syndromes."),
            ),
            _ => Err(PPError::new("Unexpected follower response received.")),
        }
    }

    /// The reconciled key: the corrected key, with the syndrome bits as the leak.
    pub fn finalize(self) -> (r: Result<Key<Reconciled>, PPError>)
        requires
            self.wf(),
        ensures
            r is Ok <==> self.corrected() is Some,
            r matches Ok(k) ==> k.bits() == self.corrected().unwrap() && k.stage().leaked_bits == self.leaked(),
    {
        match (self.corrected_key, self.follower_syndromes) {
            (Some(key), Some(_)) => Ok(self.key.reconcile(KeyData(key), self.leaked_bits)),
            (None, Some(_)) => Err(PPError::new("Reconciled key not yet generated")),
            _ => Err(PPError::new("No reconciled key or syndromes generated")),
        }
    }
}

proof fn lemma_total_len_prefix(ss: Seq<Seq<bool>>, k: int)
    requires
        0 <= k <= ss.len(),
    ensures
        total_len(ss.subrange(0, k)) <= total_len(ss),
        total_len(ss.subrange(0, k)) >= 0,
    decreases ss.len() - k,
{
    if k < ss.len() {
        lemma_total_len_prefix(ss, k + 1);
        assert(ss.subrange(0, k + 1).drop_last() =~= ss.subrange(0, k));
    } else {
        assert(ss.subrange(0, k) =~= ss);
    }
    lemma_total_len_nonneg(ss.subrange(0, k));
}

proof fn lemma_total_len_nonneg(ss: Seq<Seq<bool>>)
    ensures
        total_len(ss) >= 0,
    decreases ss.len(),
{
    if ss.len() > 0 {
        lemma_total_len_nonneg(ss.drop_last());
    }
}

} // verus!
