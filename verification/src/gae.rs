//! The global aggregation enclave: admission of signed batches with replay protection.

use vstd::prelude::*;
use crate::bytes::{
    bytes_eq, copy_range, decimal, find_from, lemma_decimal_value, find_from_exec, occurs_at, starts_with,
    starts_with_exec,
};
use crate::crypto::{
    capacity_marker, capacity_marker_bytes, ed25519_verify, gpu_capacity_of, hash_payload,
    hex_lower, is_hex_digit_byte, is_simulated_quote, lemma_hex_lower_digits, quote_attests,
    quote_attests_key, quote_prefix, quote_prefix_bytes, simulated_quote,
};
use crate::hardware::{hardware_capacity, REGISTRY_CAP_GPUS};
use crate::lse::{signature_valid, AttestedSubmission};

verus! {

/// Where the weight of an admitted batch comes from.
pub enum CapacityClaim {
    /// The text that a simulated quote states after `_CAPACITY_` (up to the next
    /// `_CAPACITY_`, or `0.0` when the quote states none). It is read as a decimal
    /// number and then capped at `REGISTRY_CAP_GPUS`.
    Quoted(Vec<u8>),
    /// GPUs that the reported hardware model implies, capped at `REGISTRY_CAP_GPUS`.
    Registry(u64),
}

/// The text `0.0`.
pub open spec fn zero_capacity_text() -> Seq<u8> {
    seq![48u8, 46u8, 48u8]
}

/// Second field of `q` split at `_CAPACITY_`, or `0.0` when there is none.
pub open spec fn quoted_capacity_field(q: Seq<u8>) -> Seq<u8> {
    match find_from(q, capacity_marker(), 0) {
        None => zero_capacity_text(),
        Some(p) => {
            let start = p + capacity_marker().len();
            match find_from(q, capacity_marker(), start) {
                Some(end) => q.subrange(start, end),
                None => q.subrange(start, q.len() as int),
            }
        },
    }
}

/// A capacity capped at the registry limit.
pub open spec fn registry_capped(n: nat) -> nat {
    if n > REGISTRY_CAP_GPUS {
        REGISTRY_CAP_GPUS as nat
    } else {
        n
    }
}

/// `claim` is the capacity claim of `sub`.
pub open spec fn claim_of(claim: CapacityClaim, sub: &AttestedSubmission) -> bool {
    match claim {
        CapacityClaim::Quoted(text) => is_simulated_quote(sub.q_init@) && text@
            == quoted_capacity_field(sub.q_init@),
        CapacityClaim::Registry(gpus) => !is_simulated_quote(sub.q_init@) && gpus
            == registry_capped(gpu_capacity_of(sub.hardware@)),
    }
}

/// Determines the capacity claim of a submission: a simulated quote carries its own
/// capacity; otherwise the hardware model decides it.
pub fn capacity_claim(sub: &AttestedSubmission) -> (claim: CapacityClaim)
    ensures
        claim_of(claim, sub),
{
    let prefix = quote_prefix_bytes();
    if starts_with_exec(sub.q_init.as_slice(), prefix.as_slice()) {
        let marker = capacity_marker_bytes();
        let q = sub.q_init.as_slice();
        match find_from_exec(q, marker.as_slice(), 0) {
            None => {
                let zero: Vec<u8> = vec![48u8, 46u8, 48u8];
                assert(zero@ =~= zero_capacity_text());
                CapacityClaim::Quoted(zero)
            },
            Some(p) => {
                let qlen = q.len();
                proof {
                    assert(find_from(q@, capacity_marker(), 0) == Some(p as int));
                    lemma_find_from_bounds(q@, capacity_marker(), 0);
                    assert(p + marker@.len() <= q@.len());
                    assert(marker@.len() == marker.len());
                    assert(q@.len() == qlen);
                }
                let start = p + marker.len();
                match find_from_exec(q, marker.as_slice(), start) {
                    Some(end) => {
                        proof {
                            lemma_find_from_bounds(q@, capacity_marker(), start as int);
                        }
                        CapacityClaim::Quoted(copy_range(q, start, end))
                    },
                    None => CapacityClaim::Quoted(copy_range(q, start, q.len())),
                }
            },
        }
    } else {
        let gpus = hardware_capacity(sub.hardware.as_str());
        let capped = if gpus > REGISTRY_CAP_GPUS {
            REGISTRY_CAP_GPUS
        } else {
            gpus
        };
        CapacityClaim::Registry(capped)
    }
}

/// A found occurrence lies within the searched bytes.
proof fn lemma_find_from_bounds(s: Seq<u8>, p: Seq<u8>, start: int)
    ensures
        find_from(s, p, start) matches Some(k) ==> start <= k && k + p.len() <= s.len(),
    decreases s.len() - start,
{
    if !(start < 0 || start + p.len() > s.len()) && !(p.len() == 0 || occurs_at(
        s,
        p,
        start,
    )) {
        lemma_find_from_bounds(s, p, start + 1);
    }
}

/// Highest batch counter accepted so far under a key (zero when none was).
pub open spec fn last_accepted(table: Map<Seq<u8>, u64>, key: Seq<u8>) -> u64 {
    if table.contains_key(key) {
        table[key]
    } else {
        0
    }
}

/// The enclave admits a submission: its quote vouches for its key, its counter
/// strictly exceeds every counter accepted before under its key, and its signature
/// verifies.
pub open spec fn admits(table: Map<Seq<u8>, u64>, sub: &AttestedSubmission) -> bool {
    &&& quote_attests(sub.q_init@, sub.vk@)
    &&& sub.batch_counter > last_accepted(table, sub.vk@)
    &&& signature_valid(sub)
}

/// Counter table after a submission is offered: it records the submission's counter
/// when admitted, and stays as it was otherwise.
pub open spec fn next_table(table: Map<Seq<u8>, u64>, sub: &AttestedSubmission) -> Map<
    Seq<u8>,
    u64,
> {
    if admits(table, sub) {
        table.insert(sub.vk@, sub.batch_counter)
    } else {
        table
    }
}

/// Counter table after offering a stream of submissions in order.
pub open spec fn offer_all(table: Map<Seq<u8>, u64>, subs: Seq<AttestedSubmission>) -> Map<
    Seq<u8>,
    u64,
>
    decreases subs.len(),
{
    if subs.len() == 0 {
        table
    } else {
        next_table(offer_all(table, subs.drop_last()), &subs.last())
    }
}

/// Replay protection: once a submission is admitted, offering it again is refused.
pub proof fn lemma_replay_rejected(table: Map<Seq<u8>, u64>, sub: &AttestedSubmission)
    requires
        admits(table, sub),
    ensures
        !admits(next_table(table, sub), sub),
{
}

/// Once a batch is admitted under a key, no batch of that key with the same or a
/// lower counter is admitted.
pub proof fn lemma_stale_counter_rejected(
    table: Map<Seq<u8>, u64>,
    sub: &AttestedSubmission,
    other: &AttestedSubmission,
)
    requires
        admits(table, sub),
        other.vk@ == sub.vk@,
        other.batch_counter <= sub.batch_counter,
    ensures
        !admits(next_table(table, sub), other),
{
}

/// The accepted counter of every key only ever grows.
pub proof fn lemma_counters_never_decrease(table: Map<Seq<u8>, u64>, sub: &AttestedSubmission)
    ensures
        forall|k: Seq<u8>| #[trigger]
            last_accepted(next_table(table, sub), k) >= last_accepted(table, k),
{
}

/// A correctly signed batch whose quote vouches for its key and whose counter exceeds
/// the key's accepted counter is admitted.
pub proof fn lemma_fresh_signed_batch_admitted(table: Map<Seq<u8>, u64>, sub: &AttestedSubmission)
    requires
        quote_attests(sub.q_init@, sub.vk@),
        signature_valid(sub),
        sub.batch_counter > last_accepted(table, sub.vk@),
    ensures
        admits(table, sub),
{
}

/// A stream of attested, correctly signed batches, possibly from several keys (one
/// per epoch, say), is admitted batch by batch when every key's counters increase
/// along the stream and start above the key's accepted counter; afterwards none of
/// them is admitted again.
pub proof fn lemma_stream_admitted(table: Map<Seq<u8>, u64>, subs: Seq<AttestedSubmission>)
    requires
        forall|i: int|
            0 <= i < subs.len() ==> quote_attests((#[trigger] subs[i]).q_init@, subs[i].vk@)
                && signature_valid(&subs[i]),
        forall|i: int, j: int|
            0 <= i < j < subs.len() && subs[i].vk@ == subs[j].vk@ ==> subs[i].batch_counter
                < subs[j].batch_counter,
        forall|i: int|
            0 <= i < subs.len() ==> (#[trigger] subs[i]).batch_counter > last_accepted(
                table,
                subs[i].vk@,
            ),
    ensures
        forall|i: int| 0 <= i < subs.len() ==> admits(offer_all(table, subs.take(i)), &#[trigger] subs[i]),
        forall|i: int| 0 <= i < subs.len() ==> !admits(offer_all(table, subs), &#[trigger] subs[i]),
{
    assert forall|i: int| 0 <= i < subs.len() implies admits(
        offer_all(table, subs.take(i)),
        &#[trigger] subs[i],
    ) by {
        lemma_stream_prefix(table, subs, i);
    }
    lemma_stream_prefix(table, subs, subs.len() as int);
    assert(subs.take(subs.len() as int) =~= subs);
}

proof fn lemma_stream_prefix(table: Map<Seq<u8>, u64>, subs: Seq<AttestedSubmission>, i: int)
    requires
        forall|i: int|
            0 <= i < subs.len() ==> quote_attests((#[trigger] subs[i]).q_init@, subs[i].vk@)
                && signature_valid(&subs[i]),
        forall|i: int, j: int|
            0 <= i < j < subs.len() && subs[i].vk@ == subs[j].vk@ ==> subs[i].batch_counter
                < subs[j].batch_counter,
        forall|i: int|
            0 <= i < subs.len() ==> (#[trigger] subs[i]).batch_counter > last_accepted(
                table,
                subs[i].vk@,
            ),
        0 <= i <= subs.len(),
    ensures
        forall|m: int|
            i <= m < subs.len() ==> last_accepted(offer_all(table, subs.take(i)), subs[m].vk@)
                < (#[trigger] subs[m]).batch_counter,
        forall|m: int|
            0 <= m < i ==> last_accepted(offer_all(table, subs.take(i)), subs[m].vk@)
                >= (#[trigger] subs[m]).batch_counter,
    decreases i,
{
    if i == 0 {
        assert(subs.take(0) =~= Seq::<AttestedSubmission>::empty());
    } else {
        lemma_stream_prefix(table, subs, i - 1);
        let before = offer_all(table, subs.take(i - 1));
        let s = subs[i - 1];
        assert(subs.take(i).drop_last() =~= subs.take(i - 1));
        assert(subs.take(i).last() == s);
        assert(admits(before, &s));
        assert(offer_all(table, subs.take(i)) == before.insert(s.vk@, s.batch_counter));
        assert forall|m: int| i <= m < subs.len() implies last_accepted(
            offer_all(table, subs.take(i)),
            subs[m].vk@,
        ) < (#[trigger] subs[m]).batch_counter by {
            if subs[m].vk@ == s.vk@ {
                assert(s.batch_counter < subs[m].batch_counter);
            }
        }
        assert forall|m: int| 0 <= m < i implies last_accepted(
            offer_all(table, subs.take(i)),
            subs[m].vk@,
        ) >= (#[trigger] subs[m]).batch_counter by {
            if m < i - 1 {
                if subs[m].vk@ == s.vk@ {
                    assert(subs[m].batch_counter < s.batch_counter);
                }
            }
        }
    }
}

proof fn lemma_find_from_first(s: Seq<u8>, p: Seq<u8>, start: int, k: int)
    requires
        0 <= start <= k,
        p.len() > 0,
        occurs_at(s, p, k),
        forall|j: int| start <= j < k ==> !occurs_at(s, p, j),
    ensures
        find_from(s, p, start) == Some(k),
    decreases k - start,
{
    if start < k {
        lemma_find_from_first(s, p, start + 1, k);
    }
}

proof fn lemma_find_from_none(s: Seq<u8>, p: Seq<u8>, start: int)
    requires
        0 <= start,
        p.len() > 0,
        forall|j: int| start <= j ==> !occurs_at(s, p, j),
    ensures
        find_from(s, p, start) is None,
    decreases s.len() - start,
{
    if start + p.len() <= s.len() {
        lemma_find_from_none(s, p, start + 1);
    }
}

/// No `_` of the prefix is followed by a `C` within the prefix.
proof fn lemma_prefix_has_no_marker_start(j: int)
    requires
        0 <= j < 22,
    ensures
        !(quote_prefix()[j] == 95u8 && quote_prefix()[j + 1] == 67u8),
{
    let q = quote_prefix();
    assert(q[0] == 84u8 && q[1] == 68u8 && q[2] == 88u8 && q[3] == 95u8 && q[4] == 68u8);
    assert(q[5] == 67u8 && q[6] == 65u8 && q[7] == 80u8 && q[8] == 95u8 && q[9] == 81u8);
    assert(q[10] == 85u8 && q[11] == 79u8 && q[12] == 84u8 && q[13] == 69u8 && q[14] == 95u8);
    assert(q[15] == 66u8 && q[16] == 73u8 && q[17] == 78u8 && q[18] == 68u8 && q[19] == 73u8);
    assert(q[20] == 78u8 && q[21] == 71u8 && q[22] == 95u8);
    if j == 3 || j == 8 || j == 14 {
    } else {
        assert(q[j] != 95u8);
    }
}

/// The capacity that a simulated quote binds is exactly the capacity text that the
/// aggregation enclave reads back from it.
pub proof fn lemma_quoted_capacity_roundtrip(public_key: Seq<u8>, capacity: nat)
    ensures
        is_simulated_quote(simulated_quote(public_key, capacity)),
        quoted_capacity_field(simulated_quote(public_key, capacity)) == decimal(capacity),
{
    let pre = quote_prefix();
    let h = hex_lower(public_key);
    let mk = capacity_marker();
    let d = decimal(capacity);
    let q = simulated_quote(public_key, capacity);
    lemma_hex_lower_digits(public_key);
    lemma_decimal_value(capacity);
    assert(q == pre + h + mk + d);
    assert(pre.len() == 23);
    assert(mk.len() == 10);
    let m: int = 23 + h.len() as int;
    assert(q.subrange(0, 23) =~= pre);
    assert(q.subrange(m, m + 10) =~= mk);
    assert(q.subrange(m + 10, q.len() as int) =~= d);
    assert forall|j: int| 0 <= j < m implies !occurs_at(q, mk, j) by {
        if occurs_at(q, mk, j) {
            assert(q.subrange(j, j + 10)[0] == mk[0]);
            assert(q.subrange(j, j + 10)[1] == mk[1]);
            assert(q[j] == 95u8);
            assert(q[j + 1] == 67u8);
            if j < 22 {
                lemma_prefix_has_no_marker_start(j);
                assert(q[j] == pre[j]);
                assert(q[j + 1] == pre[j + 1]);
            } else if j == 22 {
                if h.len() > 0 {
                    assert(q[23] == h[0]);
                    assert(is_hex_digit_byte(h[0]));
                } else {
                    assert(q[23] == mk[0]);
                }
            } else {
                assert(q[j] == h[j - 23]);
                assert(is_hex_digit_byte(h[j - 23]));
            }
        }
    }
    lemma_find_from_first(q, mk, 0, m);
    assert forall|j: int| m + 10 <= j implies !occurs_at(q, mk, j) by {
        if occurs_at(q, mk, j) {
            assert(q.subrange(j, j + 10)[0] == mk[0]);
            assert(q[j] == d[j - m - 10]);
        }
    }
    lemma_find_from_none(q, mk, m + 10);
}

/// A submission carrying a simulated quote of its own key is weighted by exactly the
/// capacity that the quote binds.
pub proof fn lemma_simulated_quote_claim(
    sub: &AttestedSubmission,
    claim: CapacityClaim,
    capacity: nat,
)
    requires
        sub.q_init@ == simulated_quote(sub.vk@, capacity),
        claim_of(claim, sub),
    ensures
        claim matches CapacityClaim::Quoted(text) && text@ == decimal(capacity),
{
    lemma_quoted_capacity_roundtrip(sub.vk@, capacity);
}

/// Highest accepted batch counter per verifying key. vstd gives hash maps a model only
/// for keys of primitive type, so the table is kept in two vectors with a ghost map.
struct CounterTable {
    keys: Vec<Vec<u8>>,
    counters: Vec<u64>,
    recorded: Ghost<Map<Seq<u8>, u64>>,
}

impl CounterTable {
    spec fn wf(&self) -> bool {
        &&& self.keys@.len() == self.counters@.len()
        &&& forall|i: int|
            0 <= i < self.keys@.len() ==> #[trigger] self.recorded@.contains_key(self.keys@[i]@)
                && self.recorded@[self.keys@[i]@] == self.counters@[i]
        &&& forall|k: Seq<u8>|
            #[trigger] self.recorded@.contains_key(k) ==> exists|i: int|
                0 <= i < self.keys@.len() && #[trigger] self.keys@[i]@ == k
        &&& forall|i: int, j: int|
            0 <= i < j < self.keys@.len() ==> self.keys@[i]@ != self.keys@[j]@
    }

    fn new() -> (t: Self)
        ensures
            t.wf(),
            t.recorded@ == Map::<Seq<u8>, u64>::empty(),
    {
        CounterTable { keys: Vec::new(), counters: Vec::new(), recorded: Ghost(Map::empty()) }
    }

    fn find(&self, key: &[u8]) -> (r: Option<usize>)
        requires
            self.wf(),
        ensures
            match r {
                Some(i) => i < self.keys@.len() && self.keys@[i as int]@ == key@,
                None => !self.recorded@.contains_key(key@),
            },
    {
        let mut i: usize = 0;
        while i < self.keys.len()
            invariant
                self.wf(),
                i <= self.keys@.len(),
                forall|j: int| 0 <= j < i ==> self.keys@[j]@ != key@,
            decreases self.keys@.len() - i,
        {
            if bytes_eq(self.keys[i].as_slice(), key) {
                return Some(i);
            }
            i = i + 1;
        }
        None
    }

    fn last_accepted(&self, key: &[u8]) -> (c: u64)
        requires
            self.wf(),
        ensures
            c == last_accepted(self.recorded@, key@),
    {
        match self.find(key) {
            Some(i) => self.counters[i],
            None => 0,
        }
    }

    fn record(&mut self, key: &[u8], counter: u64)
        requires
            old(self).wf(),
        ensures
            final(self).wf(),
            final(self).recorded@ == old(self).recorded@.insert(key@, counter),
    {
        match self.find(key) {
            Some(i) => {
                self.counters.set(i, counter);
                self.recorded = Ghost(self.recorded@.insert(key@, counter));
                assert forall|j: int| 0 <= j < self.keys@.len() implies #[trigger] self.recorded@.contains_key(
                    self.keys@[j]@,
                ) && self.recorded@[self.keys@[j]@] == self.counters@[j] by {
                    if j != i {
                        assert(old(self).keys@[j]@ != old(self).keys@[i as int]@);
                        assert(old(self).recorded@.contains_key(old(self).keys@[j]@));
                    }
                }
                assert forall|k: Seq<u8>| #[trigger] self.recorded@.contains_key(k) implies exists|
                    j: int,
                | 0 <= j < self.keys@.len() && #[trigger] self.keys@[j]@ == k by {
                    if k != key@ {
                        assert(old(self).recorded@.contains_key(k));
                        let j = choose|j: int|
                            0 <= j < old(self).keys@.len() && #[trigger] old(self).keys@[j]@ == k;
                        assert(self.keys@[j]@ == k);
                    } else {
                        assert(self.keys@[i as int]@ == k);
                    }
                }
            },
            None => {
                let owned = copy_range(key, 0, key.len());
                assert(owned@ =~= key@);
                self.keys.push(owned);
                self.counters.push(counter);
                self.recorded = Ghost(self.recorded@.insert(key@, counter));
                assert forall|j: int| 0 <= j < old(self).keys@.len() implies #[trigger] self.keys@[j]@
                    != key@ by {
                    assert(old(self).recorded@.contains_key(old(self).keys@[j]@));
                }
                assert forall|j: int| 0 <= j < self.keys@.len() implies #[trigger] self.recorded@.contains_key(
                    self.keys@[j]@,
                ) && self.recorded@[self.keys@[j]@] == self.counters@[j] by {
                    if j < old(self).keys@.len() {
                        assert(self.keys@[j] == old(self).keys@[j]);
                        assert(old(self).recorded@.contains_key(old(self).keys@[j]@));
                    }
                }
                assert forall|k: Seq<u8>| #[trigger] self.recorded@.contains_key(k) implies exists|
                    j: int,
                | 0 <= j < self.keys@.len() && #[trigger] self.keys@[j]@ == k by {
                    if k != key@ {
                        assert(old(self).recorded@.contains_key(k));
                        let j = choose|j: int|
                            0 <= j < old(self).keys@.len() && #[trigger] old(self).keys@[j]@ == k;
                        assert(self.keys@[j]@ == k);
                    } else {
                        assert(self.keys@[self.keys@.len() - 1]@ == k);
                    }
                }
            },
        }
    }
}

/// The aggregation enclave's admission state: for every verifying key, the highest
/// batch counter it has accepted.
pub struct GlobalAggregationEnclave {
    max_b_accepted: CounterTable,
}

impl View for GlobalAggregationEnclave {
    type V = Map<Seq<u8>, u64>;

    closed spec fn view(&self) -> Map<Seq<u8>, u64> {
        self.max_b_accepted.recorded@
    }
}

impl GlobalAggregationEnclave {
    /// The counter table is consistent.
    pub closed spec fn wf(&self) -> bool {
        self.max_b_accepted.wf()
    }

    /// An enclave that has accepted nothing.
    pub fn new() -> (g: Self)
        ensures
            g.wf(),
            g@ == Map::<Seq<u8>, u64>::empty(),
    {
        GlobalAggregationEnclave { max_b_accepted: CounterTable::new() }
    }

    /// Highest batch counter accepted so far under `vk` (zero when none was).
    pub fn last_accepted(&self, vk: &[u8]) -> (c: u64)
        requires
            self.wf(),
        ensures
            c == last_accepted(self@, vk@),
    {
        self.max_b_accepted.last_accepted(vk)
    }

    /// Admission control of the aggregation enclave: checks that the quote vouches for
    /// the submitting key, the strict monotonic counter and the Ed25519 signature over
    /// the payload digest; records the counter of an admitted submission, and returns
    /// the capacity claim under which it is to be aggregated.
    ///
    /// A simulated quote is verified to be exactly the simulated quote of the
    /// submission's key. A quote without the simulated prefix stands for a DCAP
    /// hardware quote; no DCAP quote verification library is part of this deployment,
    /// so such a quote is admitted on its counter and signature alone and weighted by
    /// its hardware model.
    pub fn verify_submission(&mut self, sub: &AttestedSubmission) -> (r: Option<CapacityClaim>)
        requires
            old(self).wf(),
        ensures
            final(self).wf(),
            r is Some <==> admits(old(self)@, sub),
            final(self)@ == next_table(old(self)@, sub),
            r matches Some(claim) ==> claim_of(claim, sub),
            r is Some ==> (is_simulated_quote(sub.q_init@) ==> exists|c: u64|
                sub.q_init@ == simulated_quote(sub.vk@, c as nat)),
            !is_simulated_quote(sub.q_init@) ==> (r is Some <==> (sub.batch_counter
                > last_accepted(old(self)@, sub.vk@) && signature_valid(sub))),
    {
        let claim = capacity_claim(sub);
        if sub.vk.len() != 32 || sub.signature.len() != 64 {
            return None;
        }
        if !quote_attests_key(sub.q_init.as_slice(), sub.vk.as_slice()) {
            return None;
        }
        let last_b = self.max_b_accepted.last_accepted(sub.vk.as_slice());
        if sub.batch_counter <= last_b {
            return None;
        }
        let payload = hash_payload(&sub.matrix, sub.hardware.as_str(), sub.timestamp, sub.batch_counter);
        if !ed25519_verify(sub.vk.as_slice(), payload.as_slice(), sub.signature.as_slice()) {
            return None;
        }
        self.max_b_accepted.record(sub.vk.as_slice(), sub.batch_counter);
        Some(claim)
    }
}

} // verus!
