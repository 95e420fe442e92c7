//! Post-processing stages driven by the leader: error estimation, binary LDPC reconciliation
//! and privacy amplification. Each stage is a state machine: `step` says what it needs next,
//! `update` takes the follower's response, `finalize` hands over the key in its next state.

use vstd::prelude::*;

use crate::key_state::{Key, KeyData, Reconciled, Reconciling, Secret};
use crate::matrices::ParityMatrix;
use crate::protocol::{FollowerRequests, FollowerResponse, PAReply, PPError, PPStep};
use crate::sparse_matrix::entries_view;
use crate::toeplitz::{toeplitz_hash, Toeplitz};

verus! {

/// `rand::seq::index::sample` with the thread-local generator, as a vector: `amount` distinct
/// indices below `length`, in random order.
#[verifier::external_body]
fn sample_indices(length: usize, amount: usize) -> (r: Vec<usize>)
    requires
        amount <= length,
    ensures
        r.len() == amount,
        forall|i: int| 0 <= i < r.len() ==> #[trigger] r[i] < length,
        forall|i: int, j: int| 0 <= i < j < r.len() ==> r[i] != r[j],
{
    rand::seq::index::sample(&mut rand::thread_rng(), length, amount).into_vec()
}

/// The number of positions `i` below `n` where the key bit at `idx[i]` differs from `bits[i]`.
pub open spec fn sample_errors(key: Seq<bool>, idx: Seq<usize>, bits: Seq<bool>, n: int) -> nat
    decreases n,
{
    if n <= 0 {
        0
    } else {
        sample_errors(key, idx, bits, n - 1) + if key[idx[n - 1] as int] != bits[n - 1] {
            1nat
        } else {
            0nat
        }
    }
}

/// The estimate never counts more differing bits than the sample has: the error rate it
/// gives is at most one.
pub proof fn law_estimate_within_sample(key: Seq<bool>, idx: Seq<usize>, bits: Seq<bool>, n: int)
    requires
        n >= 0,
    ensures
        sample_errors(key, idx, bits, n) <= n,
    decreases n,
{
    if n > 0 {
        law_estimate_within_sample(key, idx, bits, n - 1);
    }
}

/// Estimates the bit error rate by revealing a random sample of the key: the estimate is the
/// number of sampled bits that differ from the follower's and the size of the sample.
pub struct BEREstimation {
    error_estimate: Option<(usize, usize)>,
    sample_idx: Option<Vec<usize>>,
    key: Key<Reconciling>,
    sample_size: usize,
}

impl BEREstimation {
    /// The key.
    pub closed spec fn key_bits(&self) -> Seq<bool> {
        self.key.bits()
    }

    /// The sample, once drawn.
    pub closed spec fn sample(&self) -> Option<Seq<usize>> {
        match self.sample_idx {
            Some(v) => Some(v@),
            None => None,
        }
    }

    /// The estimate, once made: (bits that differ, sample size).
    pub closed spec fn estimate(&self) -> Option<(usize, usize)> {
        self.error_estimate
    }

    /// The number of bits to sample.
    pub closed spec fn size(&self) -> usize {
        self.sample_size
    }

    /// No bit of the key is revealed and not yet removed.
    pub closed spec fn clean(&self) -> bool {
        self.key.stage().revealed_bits@.len() == 0
    }

    /// An estimation of the error rate of `key` from a sample of `sample_size` bits.
    pub fn new(key: Key<Reconciling>, sample_size: usize) -> (r: Self)
        ensures
            r.key_bits() == key.bits(),
            r.sample() is None,
            r.estimate() is None,
            r.size() == sample_size,
            r.clean() == (key.stage().revealed_bits@.len() == 0),
    {
        BEREstimation { error_estimate: None, sample_idx: None, key, sample_size }
    }

    /// First asks the follower to reveal a random sample of the key; once the estimate is
    /// made, gives it as the result.
    pub fn step(&mut self) -> (r: Result<PPStep<(usize, usize), FollowerRequests>, PPError>)
        requires
            old(self).sample() is None ==> old(self).size() <= old(self).key_bits().len(),
        ensures
            final(self).key_bits() == old(self).key_bits(),
            final(self).estimate() == old(self).estimate(),
            final(self).size() == old(self).size(),
            final(self).clean() == old(self).clean(),
            old(self).sample() is None ==> {
                &&& final(self).sample() matches Some(s)
                &&& s.len() == old(self).size()
                &&& (forall|i: int| 0 <= i < s.len() ==> #[trigger] s[i] < old(self).key_bits().len())
                &&& (forall|i: int, j: int| 0 <= i < j < s.len() ==> s[i] != s[j])
                &&& r matches Ok(PPStep::GetUpdate(FollowerRequests::Reveal(idx))) && idx@ == s
            },
            old(self).sample() is Some ==> final(self).sample() == old(self).sample() && match old(
                self,
            ).estimate() {
                None => r is Err,
                Some(v) => r matches Ok(PPStep::Result(x)) && x == v,
            },
    {
        match &self.sample_idx {
            None => {
                let idx = sample_indices(self.key.length(), self.sample_size);
                let copy = idx.clone();
                self.sample_idx = Some(idx);
                proof {
                    assert(copy@ == self.sample().unwrap());
                }
                Ok(PPStep::GetUpdate(FollowerRequests::Reveal(copy)))
            },
            Some(_) => match self.error_estimate {
                None => Err(PPError::new("Error Estimate not available")),
                Some(v) => Ok(PPStep::Result(v)),
            },
        }
    }

    /// Takes the revealed bits of the follower: reveals the same bits of the key, counts
    /// those that differ, removes the revealed bits and makes the estimate.
    pub fn update(&mut self, update: FollowerResponse) -> (r: Result<(), PPError>)
        requires
            old(self).clean(),
        ensures
            match (old(self).estimate(), old(self).sample(), update) {
                (None, Some(idx), FollowerResponse::Reveal(bits)) => {
                    let n = if idx.len() <= bits.len() {
                        idx.len() as int
                    } else {
                        bits.len() as int
                    };
                    (forall|i: int| 0 <= i < n ==> #[trigger] idx[i] < old(self).key_bits().len()) ==> {
                        &&& r is Ok
                        &&& final(self).estimate() == Some(
                            ((sample_errors(old(self).key_bits(), idx, bits@, n)) as usize, idx.len() as usize),
                        )
                        &&& final(self).key_bits() == crate::key_state::unrevealed(
                            old(self).key_bits(),
                            idx.subrange(0, n),
                            old(self).key_bits().len() as int,
                        )
                        &&& final(self).clean()
                    }
                },
                _ => r is Err,
            },
            r is Err ==> final(self).estimate() == old(self).estimate(),
            final(self).sample() == old(self).sample(),
            final(self).size() == old(self).size(),
    {
        if self.error_estimate.is_some() {
            return Err(PPError::new("Cannot update: error estimate already exists"));
        }
        let bits = match update {
            FollowerResponse::Reveal(v) => v,
            _ => return Err(PPError::new("Unexpected response")),
        };
        match &self.sample_idx {
            None => Err(PPError::new("Tried to update before a sample was drawn")),
            Some(idx) => {
                let n = if idx.len() <= bits.len() { idx.len() } else { bits.len() };
                let ghost before = self.key.bits();
                let mut errors: usize = 0;
                let mut i: usize = 0;
                while i < n
                    invariant
                        i <= n,
                        n <= idx.len(),
                        n <= bits.len(),
                        self.sample() == old(self).sample(),
                        self.sample() == Some(idx@),
                        self.size() == old(self).size(),
                        self.error_estimate is None,
                        old(self).estimate() is None,
                        update == FollowerResponse::Reveal(bits),
                        before == old(self).key_bits(),
                        forall|t: int| 0 <= t < i ==> #[trigger] idx[t] < before.len(),
                        self.key.bits() == before,
                        self.key.stage().revealed_bits@ == idx@.subrange(0, i as int),
                        errors == sample_errors(before, idx@, bits@, i as int),
                        errors <= i,
                    decreases n - i,
                {
                    match self.key.reveal_bit(idx[i]) {
                        Some(k) => {
                            if k != bits[i] {
                                errors = errors + 1;
                            }
                        },
                        None => {
                            proof {
                                let s = old(self).sample().unwrap();
                                assert(s == idx@);
                                assert(s[i as int] >= old(self).key_bits().len());
                            }
                            return Err(PPError::new("Tried to reveal an our of bounds index"));
                        },
                    }
                    proof {
                        assert(idx@.subrange(0, i + 1) =~= idx@.subrange(0, i as int).push(idx[i as int]));
                    }
                    i = i + 1;
                }
                self.key.remove_revealed();
                self.error_estimate = Some((errors, idx.len()));
                Ok(())
            },
        }
    }

    /// The key, once the estimate is made.
    pub fn finalize(self) -> (r: Result<Key<Reconciling>, PPError>)
        ensures
            self.estimate() is None <==> r is Err,
            r matches Ok(k) ==> k.bits() == self.key_bits(),
    {
        match self.error_estimate {
            None => Err(PPError::new("Cannot finalize: no error estimate set")),
            Some(_) => Ok(self.key),
        }
    }
}

/// Where privacy amplification stands.
pub enum PAState {
    Vacant,
    BeforePA(Key<Reconciled>),
    WaitingForConfirm(Key<Reconciled>),
    Confirmed(Key<Secret>),
}

/// Privacy amplification: the leader sends the Toeplitz matrix, waits for the follower to
/// confirm, then hashes its own key.
pub struct PrivacyAmplification {
    key: PAState,
    toeplitz: Toeplitz,
    confirmed: bool,
}

/// Sets up privacy amplification.
pub struct SetupPrivacyAmplification;

impl SetupPrivacyAmplification {
    /// Privacy amplification of `key` with a random Toeplitz matrix that keeps as many bits
    /// as were not leaked.
    pub fn setup(self, key: Key<Reconciled>) -> (r: PrivacyAmplification)
        requires
            key.stage().leaked_bits <= key.bits().len(),
            key.bits().len() >= 1,
            key.bits().len() + (key.bits().len() - key.stage().leaked_bits) <= usize::MAX,
        ensures
            r.waiting_to_send(),
            r.matrix().input_len() == key.bits().len(),
            r.matrix().output_len() == key.bits().len() - key.stage().leaked_bits,
            r.confirmation() == false,
    {
        let n = key.length();
        let t = Toeplitz::new(n, n - key.leaked_bits());
        PrivacyAmplification { key: PAState::BeforePA(key), confirmed: false, toeplitz: t }
    }
}

impl PrivacyAmplification {
    /// The hash matrix.
    pub closed spec fn matrix(&self) -> Toeplitz {
        self.toeplitz
    }

    /// Whether the follower confirmed.
    pub closed spec fn confirmation(&self) -> bool {
        self.confirmed
    }

    /// The matrix is still to be sent.
    pub closed spec fn waiting_to_send(&self) -> bool {
        self.key is BeforePA
    }

    /// The matrix was sent and the key waits for the confirmation.
    pub closed spec fn waiting_for_confirm(&self) -> bool {
        self.key is WaitingForConfirm
    }

    /// The secret key is made.
    pub closed spec fn done(&self) -> bool {
        self.key is Confirmed
    }

    /// The key before hashing, while it is there.
    pub closed spec fn reconciled_bits(&self) -> Seq<bool> {
        match self.key {
            PAState::BeforePA(k) => k.bits(),
            PAState::WaitingForConfirm(k) => k.bits(),
            _ => Seq::empty(),
        }
    }

    /// The secret key, once made.
    pub closed spec fn secret_bits(&self) -> Seq<bool> {
        match self.key {
            PAState::Confirmed(k) => k.bits(),
            _ => Seq::empty(),
        }
    }

    /// Sends the matrix first; once the follower confirmed, hashes the key.
    pub fn step(&mut self) -> (r: Result<PPStep<(), FollowerRequests>, PPError>)
        requires
            old(self).matrix().input_len() > 0,
        ensures
            final(self).matrix() == old(self).matrix(),
            final(self).confirmation() == old(self).confirmation(),
            old(self).waiting_to_send() ==> final(self).waiting_for_confirm() && final(self).reconciled_bits()
                == old(self).reconciled_bits() && (r matches Ok(PPStep::GetUpdate(FollowerRequests::PrivacyAmplification(t)))
                && t.diagonals() == old(self).matrix().diagonals() && t.input_len() == old(self).matrix().input_len()
                && t.output_len() == old(self).matrix().output_len()),
            old(self).waiting_for_confirm() && old(self).confirmation() && old(self).reconciled_bits().len()
                == old(self).matrix().input_len() ==> (r matches Ok(PPStep::Result(_)) && final(self).done()
                && final(self).secret_bits() == toeplitz_hash(
                old(self).matrix().diagonals(),
                old(self).reconciled_bits(),
                old(self).matrix().input_len(),
                old(self).matrix().output_len(),
            )),
            old(self).waiting_for_confirm() && (!old(self).confirmation() || old(self).reconciled_bits().len()
                != old(self).matrix().input_len()) ==> r is Err,
            !old(self).waiting_to_send() && !old(self).waiting_for_confirm() ==> r is Err,
    {
        let mut state = PAState::Vacant;
        std::mem::swap(&mut state, &mut self.key);
        match state {
            PAState::BeforePA(key) => {
                self.key = PAState::WaitingForConfirm(key);
                Ok(PPStep::GetUpdate(FollowerRequests::PrivacyAmplification(self.toeplitz.clone())))
            },
            PAState::WaitingForConfirm(key) => {
                if self.confirmed {
                    match key.privacy_amplification(&self.toeplitz) {
                        Ok(secret) => {
                            self.key = PAState::Confirmed(secret);
                            Ok(PPStep::Result(()))
                        },
                        Err(_) => Err(PPError::new("Unable to apply hash function")),
                    }
                } else {
                    self.key = PAState::WaitingForConfirm(key);
                    Err(PPError::new("Not yet confirmed!"))
                }
            },
            other => {
                self.key = other;
                Err(PPError::new("unexpected state"))
            },
        }
    }

    /// Takes the follower's confirmation.
    pub fn update(&mut self, response: FollowerResponse) -> (r: Result<(), PPError>)
        ensures
            final(self).matrix() == old(self).matrix(),
            final(self).waiting_to_send() == old(self).waiting_to_send(),
            final(self).waiting_for_confirm() == old(self).waiting_for_confirm(),
            final(self).done() == old(self).done(),
            final(self).reconciled_bits() == old(self).reconciled_bits(),
            final(self).secret_bits() == old(self).secret_bits(),
            (response matches FollowerResponse::PrivacyAmplificationConfirmed(PAReply::Confirmed)) <==> r is Ok,
            r is Ok ==> final(self).confirmation(),
            r is Err ==> final(self).confirmation() == old(self).confirmation(),
    {
        match response {
            FollowerResponse::PrivacyAmplificationConfirmed(PAReply::Confirmed) => {
                self.confirmed = true;
                Ok(())
            },
            FollowerResponse::PrivacyAmplificationConfirmed(PAReply::Error) => Err(
                PPError::new("Privacy amplification at follower failed"),
            ),
            _ => Err(PPError::new("Unexpected response received!")),
        }
    }

    /// The secret key, once made.
    pub fn finalize(self) -> (r: Result<Key<Secret>, PPError>)
        ensures
            r is Ok <==> self.done(),
            r matches Ok(k) ==> k.bits() == self.secret_bits(),
    {
        match self.key {
            PAState::Confirmed(key) => Ok(key),
            _ => Err(PPError::new("Cannot finalize")),
        }
    }
}

/// The factor neighbour lists of a parity matrix, one per check.
pub open spec fn check_lists(m: &ParityMatrix) -> Seq<Seq<usize>> {
    Seq::new(m.matrix().factor_entries().len(), |i: int| m.matrix().factor_entries()[i].1)
}

/// What the binary LDPC stage needs next.
pub enum LdpcStep {
    /// A request to the follower.
    GetUpdate(FollowerRequests),
    /// Belief propagation on the key with this syndrome of the follower's key.
    Propagate(Vec<bool>),
}

/// Reconciliation with a binary LDPC code: the follower sends the syndrome of its key, and
/// the leader decodes its own key towards it by belief propagation.
pub struct BinaryLDPC {
    key: Key<Reconciling>,
    parity_matrix: ParityMatrix,
    max_iter: usize,
    syndrome: Option<Vec<bool>>,
    reconciled_key: Option<Vec<bool>>,
}

impl BinaryLDPC {
    /// The key.
    pub closed spec fn key_bits(&self) -> Seq<bool> {
        self.key.bits()
    }

    /// The syndrome of the follower, once received.
    pub closed spec fn follower_syndrome(&self) -> Option<Seq<bool>> {
        match self.syndrome {
            Some(s) => Some(s@),
            None => None,
        }
    }

    /// The decoded key, once decoded.
    pub closed spec fn decoded(&self) -> Option<Seq<bool>> {
        match self.reconciled_key {
            Some(s) => Some(s@),
            None => None,
        }
    }

    /// The parity matrix.
    pub closed spec fn matrix(&self) -> ParityMatrix {
        self.parity_matrix
    }

    /// No bit of the key is revealed and not yet removed.
    pub closed spec fn clean(&self) -> bool {
        self.key.stage().revealed_bits@.len() == 0
    }

    /// Reconciliation of `key` with `parity_matrix`, in at most `max_iter` rounds of belief
    /// propagation.
    pub fn new(key: Key<Reconciling>, parity_matrix: ParityMatrix, max_iter: usize) -> (r: Self)
        ensures
            r.key_bits() == key.bits(),
            r.follower_syndrome() is None,
            r.decoded() is None,
            r.matrix() == parity_matrix,
            r.clean() == (key.stage().revealed_bits@.len() == 0),
            r.rounds() == max_iter,
    {
        BinaryLDPC { key, parity_matrix, max_iter, syndrome: None, reconciled_key: None }
    }

    /// The number of rounds of belief propagation.
    pub closed spec fn rounds(&self) -> usize {
        self.max_iter
    }

    /// The number of rounds of belief propagation.
    pub fn max_iter(&self) -> (r: usize)
        ensures
            r == self.rounds(),
    {
        self.max_iter
    }

    /// The parity matrix.
    pub fn parity_matrix(&self) -> (r: &ParityMatrix)
        ensures
            *r == self.matrix(),
    {
        &self.parity_matrix
    }

    /// The key.
    pub fn key_bits_ref(&self) -> (r: &Vec<bool>)
        ensures
            r@ == self.key_bits(),
    {
        self.key.get_interior_ref()
    }

    /// Asks the follower for the syndrome of its key over every check of the matrix; once it
    /// is there, asks for belief propagation towards it.
    pub fn step(&mut self) -> (r: LdpcStep)
        ensures
            final(self).clean() == old(self).clean(),
            final(self).key_bits() == old(self).key_bits(),
            final(self).follower_syndrome() == old(self).follower_syndrome(),
            final(self).decoded() == old(self).decoded(),
            final(self).matrix() == old(self).matrix(),
            old(self).follower_syndrome() is None ==> (r matches LdpcStep::GetUpdate(FollowerRequests::Syndrome(lists))
                && crate::follower::index_lists(lists@) == check_lists(&old(self).matrix())),
            old(self).follower_syndrome() matches Some(s) ==> (r matches LdpcStep::Propagate(t) && t@ == s),
    {
        match &self.syndrome {
            None => {
                let es = self.parity_matrix.sparse().iter_factors();
                let ghost ev = entries_view(es@);
                let mut lists: Vec<Vec<usize>> = Vec::new();
                let mut i: usize = 0;
                while i < es.len()
                    invariant
                        i <= es.len(),
                        ev == entries_view(es@),
                        ev == self.parity_matrix.matrix().factor_entries(),
                        crate::follower::index_lists(lists@) == check_lists(&self.parity_matrix).subrange(0, i as int),
                    decreases es.len() - i,
                {
                    let l = es[i].1.clone();
                    proof {
                        assert(l@ == ev[i as int].1);
                        assert(crate::follower::index_lists(lists@.push(l)) =~= crate::follower::index_lists(lists@).push(l@));
                        assert(check_lists(&self.parity_matrix).subrange(0, i + 1) =~= check_lists(&self.parity_matrix).subrange(0, i as int).push(l@));
                    }
                    lists.push(l);
                    i = i + 1;
                }
                proof {
                    assert(check_lists(&self.parity_matrix).subrange(0, i as int) =~= check_lists(&self.parity_matrix));
                }
                LdpcStep::GetUpdate(FollowerRequests::Syndrome(lists))
            },
            Some(s) => LdpcStep::Propagate(s.clone()),
        }
    }

    /// The outcome of belief propagation: the decoded key, or `None` when it did not
    /// converge, which gives the key up.
    pub fn propagated(&mut self, estimate: Option<Vec<bool>>) -> (r: PPStep<(), FollowerRequests>)
        ensures
            final(self).clean() == old(self).clean(),
            final(self).key_bits() == old(self).key_bits(),
            final(self).follower_syndrome() == old(self).follower_syndrome(),
            final(self).matrix() == old(self).matrix(),
            match estimate {
                Some(e) => r is Result && final(self).decoded() == Some(e@),
                None => r is Abort && final(self).decoded() == old(self).decoded(),
            },
    {
        match estimate {
            Some(e) => {
                self.reconciled_key = Some(e);
                PPStep::Result(())
            },
            None => PPStep::Abort,
        }
    }

    /// Takes the follower's syndrome.
    pub fn update(&mut self, update: FollowerResponse) -> (r: Result<(), PPError>)
        ensures
            final(self).clean() == old(self).clean(),
            final(self).key_bits() == old(self).key_bits(),
            final(self).decoded() == old(self).decoded(),
            final(self).matrix() == old(self).matrix(),
            match update {
                FollowerResponse::Syndrome(s) => r is Ok && final(self).follower_syndrome() == Some(s@),
                _ => r is Err && final(self).follower_syndrome() == old(self).follower_syndrome(),
            },
    {
        match update {
            FollowerResponse::Syndrome(s) => {
                self.syndrome = Some(s);
                Ok(())
            },
            _ => Err(PPError::new("Did not expect this update")),
        }
    }

    /// The reconciled key: the decoded bits, with one leaked bit per syndrome bit.
    pub fn finalize(self) -> (r: Result<Key<Reconciled>, PPError>)
        requires
            self.clean(),
        ensures
            r is Ok <==> (self.decoded() is Some && self.follower_syndrome() is Some),
            r matches Ok(k) ==> k.bits() == self.decoded().unwrap() && k.stage().leaked_bits
                == self.follower_syndrome().unwrap().len(),
    {
        match (self.reconciled_key, self.syndrome) {
            (Some(reconciled), Some(syndrome)) => Ok(self.key.reconcile(KeyData(reconciled), syndrome.len())),
            _ => Err(PPError::new("Unable to finalize key, not yet reconciled")),
        }
    }
}

/// Sets up binary LDPC reconciliation: the alist file of the parity matrix and the number of
/// rounds of belief propagation.
pub struct SetupBinaryLDPC {
    parity_matrix_alist_file: String,
    max_iter: usize,
}

impl SetupBinaryLDPC {
    /// The setup.
    pub fn new(max_iter: usize, parity_matrix_alist_file: String) -> (r: Self)
        ensures
            r.rounds() == max_iter,
            r.file()@ == parity_matrix_alist_file@,
    {
        SetupBinaryLDPC { max_iter, parity_matrix_alist_file }
    }

    /// The number of rounds.
    pub closed spec fn rounds(&self) -> usize {
        self.max_iter
    }

    /// The alist file.
    pub closed spec fn file(&self) -> String {
        self.parity_matrix_alist_file
    }

    /// The alist file.
    pub fn alist_file(&self) -> (r: &String)
        ensures
            r@ == self.file()@,
    {
        &self.parity_matrix_alist_file
    }

    /// The stage for `key`, with the parity matrix read from the alist file.
    pub fn setup(self, key: Key<Reconciling>, parity_matrix: ParityMatrix) -> (r: BinaryLDPC)
        ensures
            r.key_bits() == key.bits(),
            r.follower_syndrome() is None,
            r.decoded() is None,
            r.matrix() == parity_matrix,
            r.clean() == (key.stage().revealed_bits@.len() == 0),
            r.rounds() == self.rounds(),
    {
        BinaryLDPC::new(key, parity_matrix, self.max_iter)
    }
}

} // verus!
