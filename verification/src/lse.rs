//! The local sanitisation enclave: transition extraction and batch attestation.

use vstd::prelude::*;
use crate::bytes::copy_range;
use crate::crypto::{
    ed25519_sign, gpu_capacity_of, hash_payload, payload_digest, quote_attests, simulated_quote,
    spec_ed25519_sign, spec_ed25519_verify, LseIdentity,
};
use crate::hardware::{hardware_kind, HardwareKind};
use crate::matrix::{Matrix, TransitionCounts};
use crate::telemetry::{lemma_state_in_range, state_of, threshold_table, Discretiser};

verus! {

/// Batches signed under one identity before the identity is rotated; this bounds the
/// privacy loss that one key can link together.
pub const BATCHES_PER_EPOCH: u64 = 60;

/// A sanitised, signed batch as it travels to the aggregation enclave.
pub struct AttestedSubmission {
    pub matrix: Matrix,
    pub q_init: Vec<u8>,
    pub vk: Vec<u8>,
    pub signature: Vec<u8>,
    pub hardware: String,
    pub timestamp: u64,
    pub batch_counter: u64,
}

/// The submission's signature verifies under its key over its own payload digest.
pub open spec fn signature_valid(sub: &AttestedSubmission) -> bool {
    &&& sub.vk@.len() == 32
    &&& sub.signature@.len() == 64
    &&& spec_ed25519_verify(
        sub.vk@,
        payload_digest(sub.matrix.data@, sub.hardware@, sub.timestamp, sub.batch_counter),
        sub.signature@,
    )
}

/// States of a sequence of readings.
pub open spec fn states_of(thresholds: Seq<i64>, readings: Seq<i64>) -> Seq<nat> {
    readings.map_values(|r: i64| state_of(thresholds, r))
}

/// How often state `b` directly follows state `a` (self-loops included).
pub open spec fn pair_count(states: Seq<nat>, a: nat, b: nat) -> nat
    decreases states.len(),
{
    if states.len() < 2 {
        0
    } else {
        pair_count(states.drop_last(), a, b) + (if states[states.len() - 2] == a
            && states[states.len() - 1] == b {
            1nat
        } else {
            0nat
        })
    }
}

/// Sum of a sequence of counts.
pub open spec fn seq_sum(s: Seq<u64>) -> int
    decreases s.len(),
{
    if s.len() == 0 {
        0
    } else {
        seq_sum(s.drop_last()) + s.last()
    }
}

/// Number of consecutive pairs in a sequence of `len` samples.
pub open spec fn num_pairs(len: nat) -> nat {
    if len == 0 {
        0
    } else {
        (len - 1) as nat
    }
}

proof fn lemma_flat_index(a: int, b: int, n: int)
    requires
        0 <= a < n,
        0 <= b < n,
    ensures
        0 <= a * n + b < n * n,
{
    assert(a * n + b < n * n) by (nonlinear_arith)
        requires
            0 <= a < n,
            0 <= b < n,
    ;
    assert(0 <= a * n) by (nonlinear_arith)
        requires
            0 <= a,
            0 <= n,
    ;
}

proof fn lemma_flat_index_injective(a: int, b: int, c: int, d: int, n: int)
    requires
        0 <= a < n,
        0 <= b < n,
        0 <= c < n,
        0 <= d < n,
        a * n + b == c * n + d,
    ensures
        a == c,
        b == d,
{
    assert(a == c) by (nonlinear_arith)
        requires
            0 <= a < n,
            0 <= b < n,
            0 <= c < n,
            0 <= d < n,
            a * n + b == c * n + d,
    ;
}

proof fn lemma_sum_push_zero(s: Seq<u64>)
    ensures
        seq_sum(s.push(0u64)) == seq_sum(s),
{
    assert(s.push(0u64).drop_last() =~= s);
}

proof fn lemma_sum_increment(s: Seq<u64>, j: int)
    requires
        0 <= j < s.len(),
        s[j] < u64::MAX,
    ensures
        seq_sum(s.update(j, (s[j] + 1) as u64)) == seq_sum(s) + 1,
    decreases s.len(),
{
    let t = s.update(j, (s[j] + 1) as u64);
    if j == s.len() - 1 {
        assert(t.drop_last() =~= s.drop_last());
    } else {
        lemma_sum_increment(s.drop_last(), j);
        assert(t.drop_last() =~= s.drop_last().update(j, (s[j] + 1) as u64));
    }
}

proof fn lemma_pair_count_step(states: Seq<nat>, i: int, a: nat, b: nat)
    requires
        1 <= i < states.len(),
    ensures
        pair_count(states.take(i + 1), a, b) == pair_count(states.take(i), a, b) + (if states[i
            - 1] == a && states[i] == b {
            1nat
        } else {
            0nat
        }),
{
    assert(states.take(i + 1).drop_last() =~= states.take(i));
}

/// Abstract state of a local sanitisation enclave.
pub struct PipelineView {
    pub identity: LseIdentity,
    pub hardware_type: Seq<char>,
    pub batch_counter: u64,
    pub batch_open: bool,
    pub thresholds: Seq<i64>,
    pub num_states: nat,
}

/// A local sanitisation enclave bound to one hardware model.
pub struct LsePipeline {
    identity: LseIdentity,
    hardware_type: String,
    batch_counter: u64,
    batch_open: bool,
    discretiser: Discretiser,
    num_states: usize,
}

impl View for LsePipeline {
    type V = PipelineView;

    closed spec fn view(&self) -> PipelineView {
        PipelineView {
            identity: self.identity,
            hardware_type: self.hardware_type@,
            batch_counter: self.batch_counter,
            batch_open: self.batch_open,
            thresholds: self.discretiser.thresholds(),
            num_states: self.num_states as nat,
        }
    }
}

impl LsePipeline {
    /// The identity's key pair is consistent, the identity's capacity and quote are
    /// those of the hardware model, and the discretiser uses that model's table.
    pub closed spec fn wf(&self) -> bool {
        &&& self.identity.wf()
        &&& self.identity.spdm_capacity == gpu_capacity_of(self.hardware_type@)
        &&& self.identity.q_init@ == simulated_quote(
            self.identity.verifying_key@,
            self.identity.spdm_capacity as nat,
        )
        &&& self.discretiser.wf()
        &&& self.discretiser.thresholds() == threshold_table(
            vstd::utf8::encode_utf8(self.hardware_type@),
        )
    }

    /// What a well-formed pipeline guarantees: its identity is bound to its hardware
    /// model, its table is that model's (five states), and every reading maps to
    /// one of those five states.
    pub proof fn lemma_wf_bindings(&self)
        requires
            self.wf(),
        ensures
            self@.identity.wf(),
            self@.identity.spdm_capacity == gpu_capacity_of(self@.hardware_type),
            self@.identity.q_init@ == simulated_quote(
                self@.identity.verifying_key@,
                self@.identity.spdm_capacity as nat,
            ),
            hardware_kind(vstd::utf8::encode_utf8(self@.hardware_type)) != HardwareKind::Other,
            self@.thresholds == threshold_table(vstd::utf8::encode_utf8(self@.hardware_type)),
            self@.thresholds.len() == 5,
            forall|r: i64| #[trigger] state_of(self@.thresholds, r) < 5,
    {
        assert forall|r: i64| #[trigger] state_of(self@.thresholds, r) < 5 by {
            lemma_state_in_range(self@.thresholds, r);
        }
    }

    /// The enclave's current identity.
    pub fn identity(&self) -> (id: &LseIdentity)
        ensures
            *id == self@.identity,
    {
        &self.identity
    }

    /// The hardware model the enclave reports.
    pub fn hardware_type(&self) -> (h: &str)
        ensures
            h@ == self@.hardware_type,
    {
        self.hardware_type.as_str()
    }

    /// Number of batches opened in the current epoch.
    pub fn batch_counter(&self) -> (c: u64)
        ensures
            c == self@.batch_counter,
    {
        self.batch_counter
    }

    /// Side length of the transition matrices the enclave produces.
    pub fn num_states(&self) -> (n: usize)
        ensures
            n == self@.num_states,
    {
        self.num_states
    }

    /// State of one reading under the enclave's threshold table.
    pub fn discretise(&self, reading: i64) -> (s: usize)
        requires
            self.wf(),
        ensures
            s == state_of(self@.thresholds, reading),
    {
        self.discretiser.process(reading)
    }

    /// A pipeline for a supported hardware model, with a fresh identity and the batch
    /// counter at zero.
    pub fn new(hardware_type: &str, num_states: usize) -> (p: Self)
        requires
            hardware_kind(vstd::utf8::encode_utf8(hardware_type@)) != HardwareKind::Other,
        ensures
            p.wf(),
            p@.hardware_type == hardware_type@,
            p@.batch_counter == 0,
            !p@.batch_open,
            p@.num_states == num_states,
            p@.thresholds == threshold_table(vstd::utf8::encode_utf8(hardware_type@)),
            p@.identity.spdm_capacity == gpu_capacity_of(hardware_type@),
            p@.identity.q_init@ == simulated_quote(
                p@.identity.verifying_key@,
                p@.identity.spdm_capacity as nat,
            ),
    {
        LsePipeline {
            identity: LseIdentity::new(hardware_type),
            hardware_type: hardware_type.to_owned(),
            batch_counter: 0,
            batch_open: false,
            discretiser: Discretiser::new(hardware_type),
            num_states,
        }
    }

    /// Starts a new epoch: a fresh identity, and the batch counter back at zero.
    pub fn rotate_epoch(&mut self)
        requires
            old(self).wf(),
        ensures
            final(self).wf(),
            final(self)@.batch_counter == 0,
            !final(self)@.batch_open,
            final(self)@.hardware_type == old(self)@.hardware_type,
            final(self)@.identity.spdm_capacity == old(self)@.identity.spdm_capacity,
            final(self)@.identity.signing_key@ != old(self)@.identity.signing_key@,
            final(self)@.identity != old(self)@.identity,
            final(self)@.thresholds == old(self)@.thresholds,
            final(self)@.num_states == old(self)@.num_states,
            final(self)@.identity.spdm_capacity == gpu_capacity_of(old(self)@.hardware_type),
            final(self)@.identity.q_init@ == simulated_quote(
                final(self)@.identity.verifying_key@,
                final(self)@.identity.spdm_capacity as nat,
            ),
    {
        self.identity = self.identity.fresh_replacement(self.hardware_type.as_str());
        self.batch_counter = 0;
        self.batch_open = false;
    }

    /// Whether the current epoch has used up its batches, so that the identity is due
    /// for rotation.
    pub fn epoch_complete(&self) -> (r: bool)
        ensures
            r == (self@.batch_counter % BATCHES_PER_EPOCH == 0),
    {
        self.batch_counter % BATCHES_PER_EPOCH == 0
    }

    /// Opens the next batch and extracts its transition counts, retaining the
    /// self-loops of sequential identical samples.
    pub fn process_batch(&mut self, readings: &[i64]) -> (counts: TransitionCounts)
        requires
            old(self).wf(),
            old(self)@.batch_counter < u64::MAX,
            old(self)@.num_states * old(self)@.num_states <= usize::MAX,
            readings@.len() >= 2 ==> forall|i: int|
                0 <= i < readings@.len() ==> state_of(old(self)@.thresholds, #[trigger] readings@[i])
                    < old(self)@.num_states,
        ensures
            final(self).wf(),
            final(self)@.batch_counter == old(self)@.batch_counter + 1,
            final(self)@.batch_open,
            final(self)@.identity == old(self)@.identity,
            final(self)@.hardware_type == old(self)@.hardware_type,
            final(self)@.thresholds == old(self)@.thresholds,
            final(self)@.num_states == old(self)@.num_states,
            counts.num_states == old(self)@.num_states,
            counts.counts@.len() == old(self)@.num_states * old(self)@.num_states,
            forall|a: int, b: int|
                0 <= a < old(self)@.num_states && 0 <= b < old(self)@.num_states ==> #[trigger] counts.counts@[a
                    * old(self)@.num_states + b] == pair_count(
                    states_of(old(self)@.thresholds, readings@),
                    a as nat,
                    b as nat,
                ),
            seq_sum(counts.counts@) == num_pairs(readings@.len()),
    {
        self.batch_counter = self.batch_counter + 1;
        self.batch_open = true;
        let n = self.num_states;
        let ghost th = self.discretiser.thresholds();
        let ghost states = states_of(th, readings@);
        let total = n * n;
        let mut counts: Vec<u64> = Vec::new();
        while counts.len() < total
            invariant
                total == n * n,
                counts@.len() <= total,
                forall|j: int| 0 <= j < counts@.len() ==> counts@[j] == 0,
                seq_sum(counts@) == 0,
            decreases total - counts@.len(),
        {
            proof {
                lemma_sum_push_zero(counts@);
            }
            counts.push(0u64);
        }
        if readings.len() >= 2 {
            let mut prev = self.discretiser.process(readings[0]);
            let mut i: usize = 1;
            assert forall|a: int, b: int| 0 <= a < n && 0 <= b < n implies #[trigger] counts@[a
                * n + b] == pair_count(states.take(1), a as nat, b as nat) by {
                lemma_flat_index(a, b, n as int);
            }
            while i < readings.len()
                invariant
                    self.wf(),
                    self.discretiser.thresholds() == th,
                    self.num_states == n,
                    states == states_of(th, readings@),
                    readings@.len() >= 2,
                    forall|k: int|
                        0 <= k < readings@.len() ==> state_of(th, #[trigger] readings@[k]) < n,
                    1 <= i <= readings@.len(),
                    prev == states[i - 1],
                    n * n <= usize::MAX,
                    counts@.len() == n * n,
                    forall|j: int| 0 <= j < counts@.len() ==> counts@[j] < i,
                    forall|a: int, b: int|
                        0 <= a < n && 0 <= b < n ==> #[trigger] counts@[a * n + b] == pair_count(
                            states.take(i as int),
                            a as nat,
                            b as nat,
                        ),
                    seq_sum(counts@) == i - 1,
                decreases readings@.len() - i,
            {
                let curr = self.discretiser.process(readings[i]);
                assert(states[i as int] == curr);
                assert(prev < n);
                assert(curr < n);
                proof {
                    lemma_flat_index(prev as int, curr as int, n as int);
                }
                let idx = prev * n + curr;
                let ghost before = counts@;
                proof {
                    lemma_sum_increment(before, idx as int);
                }
                let c = counts[idx];
                counts.set(idx, c + 1);
                assert forall|a: int, b: int| 0 <= a < n && 0 <= b < n implies #[trigger] counts@[a
                    * n + b] == pair_count(states.take(i + 1), a as nat, b as nat) by {
                    lemma_pair_count_step(states, i as int, a as nat, b as nat);
                    lemma_flat_index(a, b, n as int);
                    if a * n + b == idx as int {
                        lemma_flat_index_injective(a, b, prev as int, curr as int, n as int);
                    } else {
                        assert(!(a == prev && b == curr));
                    }
                }
                prev = curr;
                i = i + 1;
            }
            assert(states.take(readings@.len() as int) =~= states);
        } else {
            assert forall|a: int, b: int| 0 <= a < n && 0 <= b < n implies #[trigger] counts@[a
                * n + b] == pair_count(states, a as nat, b as nat) by {
                lemma_flat_index(a, b, n as int);
            }
        }
        TransitionCounts { num_states: n, counts }
    }

    /// Signs the sanitised matrix of the open batch and closes the batch: the
    /// signature covers the matrix, the hardware name, the timestamp and the batch
    /// counter, so every counter value signs exactly one payload.
    pub fn attest(&mut self, matrix: Matrix, timestamp: u64) -> (sub: AttestedSubmission)
        requires
            old(self).wf(),
            old(self)@.batch_open,
        ensures
            final(self).wf(),
            !final(self)@.batch_open,
            final(self)@.identity == old(self)@.identity,
            final(self)@.hardware_type == old(self)@.hardware_type,
            final(self)@.batch_counter == old(self)@.batch_counter,
            final(self)@.thresholds == old(self)@.thresholds,
            final(self)@.num_states == old(self)@.num_states,
            sub.matrix == matrix,
            sub.q_init@ == old(self)@.identity.q_init@,
            sub.vk@ == old(self)@.identity.verifying_key@,
            sub.signature@ == spec_ed25519_sign(
                old(self)@.identity.signing_key@,
                payload_digest(
                    matrix.data@,
                    old(self)@.hardware_type,
                    timestamp,
                    old(self)@.batch_counter,
                ),
            ),
            sub.hardware@ == old(self)@.hardware_type,
            sub.timestamp == timestamp,
            sub.batch_counter == old(self)@.batch_counter,
            signature_valid(&sub),
            quote_attests(sub.q_init@, sub.vk@),
    {
        let digest = hash_payload(&matrix, self.hardware_type.as_str(), timestamp, self.batch_counter);
        let signature = ed25519_sign(self.identity.signing_key.as_slice(), digest.as_slice());
        let q_init = copy_range(self.identity.q_init.as_slice(), 0, self.identity.q_init.len());
        let vk = copy_range(
            self.identity.verifying_key.as_slice(),
            0,
            self.identity.verifying_key.len(),
        );
        assert(q_init@ =~= self.identity.q_init@);
        assert(vk@ =~= self.identity.verifying_key@);
        assert(q_init@ == simulated_quote(vk@, self.identity.spdm_capacity as nat));
        self.batch_open = false;
        AttestedSubmission {
            matrix,
            q_init,
            vk,
            signature,
            hardware: self.hardware_type.clone(),
            timestamp,
            batch_counter: self.batch_counter,
        }
    }
}

} // verus!
