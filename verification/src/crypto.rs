//! Keys, quotes and payload hashing of the local sanitisation enclave.

use vstd::prelude::*;
use ed25519_dalek::{Signature, Signer, SigningKey, Verifier, VerifyingKey};
use sha2::{Digest, Sha256};
use crate::bytes::{
    append_bytes, bytes_eq, copy_range, decimal, decimal_digits, lemma_decimal_value,
    parse_decimal, push_u64_le, push_words_le, starts_with, starts_with_exec, u64_le, words_le,
};
use crate::hardware::{gpu_capacity, hardware_capacity};
use crate::matrix::Matrix;

verus! {

/// SHA-256 digest of a byte string, as `sha2::Sha256` computes it.
pub uninterp spec fn spec_sha256(data: Seq<u8>) -> Seq<u8>;

/// Ed25519 public key (compressed point) derived from a 32-byte secret key.
pub uninterp spec fn spec_ed25519_public_key(secret: Seq<u8>) -> Seq<u8>;

/// Ed25519 signature (RFC 8032, deterministic) of a message under a 32-byte secret key.
pub uninterp spec fn spec_ed25519_sign(secret: Seq<u8>, msg: Seq<u8>) -> Seq<u8>;

/// Whether an Ed25519 signature verifies for a message under a public key.
pub uninterp spec fn spec_ed25519_verify(public: Seq<u8>, msg: Seq<u8>, sig: Seq<u8>) -> bool;

/// Calls `sha2::Sha256::digest`: the result is the named SHA-256 digest of `data`,
/// 32 bytes long.
#[verifier::external_body]
fn sha256_digest(data: &[u8]) -> (d: Vec<u8>)
    ensures
        d@ == spec_sha256(data@),
        d@.len() == 32,
{
    Sha256::digest(data).to_vec()
}

/// Calls `ed25519_dalek::SigningKey::generate` with the operating system's random
/// source and returns the secret key bytes. Nothing is claimed of them but
/// their length: they come from chance.
#[verifier::external_body]
pub(crate) fn generate_secret_key() -> (secret: Vec<u8>)
    ensures
        secret@.len() == 32,
{
    let mut csprng = rand::rngs::OsRng;
    SigningKey::generate(&mut csprng).to_bytes().to_vec()
}

/// Calls `SigningKey::from_bytes(..).verifying_key().to_bytes()`: the named public
/// key of `secret`, 32 bytes long.
#[verifier::external_body]
pub(crate) fn ed25519_public_key(secret: &[u8]) -> (public: Vec<u8>)
    requires
        secret@.len() == 32,
    ensures
        public@ == spec_ed25519_public_key(secret@),
        public@.len() == 32,
{
    let secret: [u8; 32] = secret.try_into().unwrap();
    SigningKey::from_bytes(&secret).verifying_key().to_bytes().to_vec()
}

/// Calls `Signer::sign` of `ed25519_dalek::SigningKey`: the named signature of `msg`
/// under `secret`, 64 bytes long. Ed25519 is correct: that signature verifies under
/// the public key of `secret` (the verifying key decompresses, being derived from a
/// curve point, and `verify` recomputes the signature's `R`).
#[verifier::external_body]
pub(crate) fn ed25519_sign(secret: &[u8], msg: &[u8]) -> (sig: Vec<u8>)
    requires
        secret@.len() == 32,
    ensures
        sig@ == spec_ed25519_sign(secret@, msg@),
        sig@.len() == 64,
        spec_ed25519_verify(spec_ed25519_public_key(secret@), msg@, sig@),
{
    let secret: [u8; 32] = secret.try_into().unwrap();
    SigningKey::from_bytes(&secret).sign(msg).to_bytes().to_vec()
}

/// Calls `VerifyingKey::from_bytes` and then `Verifier::verify`: the named verdict on
/// `sig` over `msg` under `public` (false where the key bytes are no curve point).
#[verifier::external_body]
pub(crate) fn ed25519_verify(public: &[u8], msg: &[u8], sig: &[u8]) -> (ok: bool)
    requires
        public@.len() == 32,
        sig@.len() == 64,
    ensures
        ok == spec_ed25519_verify(public@, msg@, sig@),
{
    let public: [u8; 32] = public.try_into().unwrap();
    let sig: [u8; 64] = sig.try_into().unwrap();
    match VerifyingKey::from_bytes(&public) {
        Ok(key) => key.verify(msg, &Signature::from_bytes(&sig)).is_ok(),
        Err(_) => false,
    }
}

/// Lowercase ASCII hex digit of a nibble.
pub open spec fn hex_digit(n: nat) -> u8 {
    if n < 10 {
        (48 + n) as u8
    } else {
        (87 + n) as u8
    }
}

/// Lowercase hex encoding: two digits per byte, high nibble first.
pub open spec fn hex_lower(data: Seq<u8>) -> Seq<u8>
    decreases data.len(),
{
    if data.len() == 0 {
        Seq::empty()
    } else {
        seq![hex_digit(data[0] as nat / 16), hex_digit(data[0] as nat % 16)] + hex_lower(
            data.drop_first(),
        )
    }
}

/// Calls `hex::encode`, which encodes every byte as two lowercase hex digits,
/// high nibble first; returns the string's bytes.
#[verifier::external_body]
fn hex_encode(data: &[u8]) -> (h: Vec<u8>)
    ensures
        h@ == hex_lower(data@),
{
    hex::encode(data).into_bytes()
}

/// Bytes that the digest binds: every matrix entry's little-endian bytes in storage
/// order, the hardware name's UTF-8 bytes, then the timestamp and the batch counter,
/// both little-endian.
pub open spec fn payload_preimage(
    entries: Seq<u64>,
    hardware: Seq<char>,
    timestamp: u64,
    batch_counter: u64,
) -> Seq<u8> {
    words_le(entries) + vstd::utf8::encode_utf8(hardware) + u64_le(timestamp) + u64_le(
        batch_counter,
    )
}

/// The digest that a batch's signature covers.
pub open spec fn payload_digest(
    entries: Seq<u64>,
    hardware: Seq<char>,
    timestamp: u64,
    batch_counter: u64,
) -> Seq<u8> {
    spec_sha256(payload_preimage(entries, hardware, timestamp, batch_counter))
}

/// `H = SHA256(M || h || timestamp || b)`: the per-batch payload hash.
pub fn hash_payload(matrix: &Matrix, hardware: &str, timestamp: u64, batch_counter: u64) -> (h: Vec<
    u8,
>)
    ensures
        h@ == payload_digest(matrix.data@, hardware@, timestamp, batch_counter),
        h@.len() == 32,
{
    let mut pre: Vec<u8> = Vec::new();
    push_words_le(&mut pre, matrix.data.as_slice());
    append_bytes(&mut pre, hardware.as_bytes());
    push_u64_le(&mut pre, timestamp);
    push_u64_le(&mut pre, batch_counter);
    assert(pre@ =~= payload_preimage(matrix.data@, hardware@, timestamp, batch_counter));
    sha256_digest(pre.as_slice())
}

/// The text `TDX_DCAP_QUOTE_BINDING_` that opens a simulated quote.
pub open spec fn quote_prefix() -> Seq<u8> {
    seq![
        84u8, 68u8, 88u8, 95u8, 68u8, 67u8, 65u8, 80u8, 95u8, 81u8, 85u8, 79u8,
        84u8, 69u8, 95u8, 66u8, 73u8, 78u8, 68u8, 73u8, 78u8, 71u8, 95u8,
    ]
}

/// The text `_CAPACITY_` that precedes the capacity in a simulated quote.
pub open spec fn capacity_marker() -> Seq<u8> {
    seq![95u8, 67u8, 65u8, 80u8, 65u8, 67u8, 73u8, 84u8, 89u8, 95u8]
}

/// `TDX_DCAP_QUOTE_BINDING_<hex(public key)>_CAPACITY_<capacity>`: the quote that an
/// enclave without TDX hardware presents.
pub open spec fn simulated_quote(public_key: Seq<u8>, capacity: nat) -> Seq<u8> {
    quote_prefix() + hex_lower(public_key) + capacity_marker() + decimal(capacity)
}

/// Bytes of `TDX_DCAP_QUOTE_BINDING_`.
pub fn quote_prefix_bytes() -> (v: Vec<u8>)
    ensures
        v@ == quote_prefix(),
{
    let v: Vec<u8> = vec![
        84u8, 68u8, 88u8, 95u8, 68u8, 67u8, 65u8, 80u8, 95u8, 81u8, 85u8, 79u8,
        84u8, 69u8, 95u8, 66u8, 73u8, 78u8, 68u8, 73u8, 78u8, 71u8, 95u8,
    ];
    assert(v@ =~= quote_prefix());
    v
}

/// Bytes of `_CAPACITY_`.
pub fn capacity_marker_bytes() -> (v: Vec<u8>)
    ensures
        v@ == capacity_marker(),
{
    let v: Vec<u8> = vec![95u8, 67u8, 65u8, 80u8, 65u8, 67u8, 73u8, 84u8, 89u8, 95u8];
    assert(v@ =~= capacity_marker());
    v
}

/// Builds the simulated quote binding `public_key` and `capacity`.
pub fn simulated_quote_bytes(public_key: &[u8], capacity: u64) -> (q: Vec<u8>)
    ensures
        q@ == simulated_quote(public_key@, capacity as nat),
{
    let mut q = quote_prefix_bytes();
    let hex = hex_encode(public_key);
    append_bytes(&mut q, hex.as_slice());
    let marker = capacity_marker_bytes();
    append_bytes(&mut q, marker.as_slice());
    let digits = decimal_digits(capacity);
    append_bytes(&mut q, digits.as_slice());
    q
}

/// A lowercase hex digit byte.
pub open spec fn is_hex_digit_byte(b: u8) -> bool {
    (48 <= b <= 57) || (97 <= b <= 102)
}

/// Hex encoding doubles the length and writes only lowercase hex digits.
pub proof fn lemma_hex_lower_digits(data: Seq<u8>)
    ensures
        hex_lower(data).len() == 2 * data.len(),
        forall|i: int| 0 <= i < hex_lower(data).len() ==> is_hex_digit_byte(#[trigger] hex_lower(data)[i]),
    decreases data.len(),
{
    if data.len() > 0 {
        lemma_hex_lower_digits(data.drop_first());
        let head = seq![hex_digit(data[0] as nat / 16), hex_digit(data[0] as nat % 16)];
        assert(hex_lower(data) == head + hex_lower(data.drop_first()));
        assert forall|i: int| 0 <= i < hex_lower(data).len() implies is_hex_digit_byte(
            #[trigger] hex_lower(data)[i],
        ) by {
            if i >= 2 {
                assert(hex_lower(data)[i] == hex_lower(data.drop_first())[i - 2]);
            }
        }
    }
}

/// A quote that announces itself as simulated.
pub open spec fn is_simulated_quote(q: Seq<u8>) -> bool {
    starts_with(q, quote_prefix())
}

/// The quote vouches for `public_key`. A simulated quote must be exactly the simulated
/// quote of that key for some capacity. Any other quote stands for a DCAP hardware
/// quote, whose certificate chain this deployment has no verifier for: it is not
/// examined here.
pub open spec fn quote_attests(q: Seq<u8>, public_key: Seq<u8>) -> bool {
    is_simulated_quote(q) ==> exists|c: u64| q == simulated_quote(public_key, c as nat)
}

/// Length of the part of a simulated quote for a 32-byte key that precedes the capacity.
pub open spec fn quote_head_len() -> int {
    97
}

proof fn lemma_quote_layout(public_key: Seq<u8>, capacity: nat)
    requires
        public_key.len() == 32,
    ensures
        simulated_quote(public_key, capacity).len() >= quote_head_len() + 1,
        simulated_quote(public_key, capacity).subrange(
            quote_head_len(),
            simulated_quote(public_key, capacity).len() as int,
        ) == decimal(capacity),
{
    lemma_hex_lower_digits(public_key);
    lemma_decimal_value(capacity);
    let q = simulated_quote(public_key, capacity);
    assert(quote_prefix().len() == 23);
    assert(capacity_marker().len() == 10);
    assert(q.subrange(97, q.len() as int) =~= decimal(capacity));
}

/// Decides whether the quote vouches for `public_key`.
pub fn quote_attests_key(q: &[u8], public_key: &[u8]) -> (r: bool)
    requires
        public_key@.len() == 32,
    ensures
        r == quote_attests(q@, public_key@),
{
    let prefix = quote_prefix_bytes();
    if !starts_with_exec(q, prefix.as_slice()) {
        return true;
    }
    if q.len() <= 97 {
        proof {
            assert forall|c: u64| q@ != simulated_quote(public_key@, c as nat) by {
                lemma_quote_layout(public_key@, c as nat);
            }
        }
        return false;
    }
    let tail = copy_range(q, 97, q.len());
    match parse_decimal(tail.as_slice()) {
        None => {
            proof {
                assert forall|c: u64| q@ != simulated_quote(public_key@, c as nat) by {
                    lemma_quote_layout(public_key@, c as nat);
                    lemma_decimal_value(c as nat);
                }
            }
            false
        },
        Some(c) => {
            let expected = simulated_quote_bytes(public_key, c);
            let same = bytes_eq(q, expected.as_slice());
            proof {
                if !same {
                    assert forall|c2: u64| q@ != simulated_quote(public_key@, c2 as nat) by {
                        lemma_quote_layout(public_key@, c2 as nat);
                        lemma_decimal_value(c2 as nat);
                    }
                }
            }
            same
        },
    }
}

/// Stand-in for `tdx_attest_get_quote` of `libtdx_attest`: no TDX hardware is
/// present, so no quote is ever produced.
pub fn mock_tdx_attest_get_quote(_report_data: Option<&[u8]>, _attest_key: Option<&[u8]>) -> (r:
    Result<Vec<u8>, &'static str>)
    ensures
        r matches Err(msg) && msg@ == "TDX Hardware not detected (Mock)"@,
{
    Err("TDX Hardware not detected (Mock)")
}

/// GPU capacity of a hardware name given as text.
pub open spec fn gpu_capacity_of(hardware: Seq<char>) -> nat {
    gpu_capacity(vstd::utf8::encode_utf8(hardware))
}

/// The attested identity of a local sanitisation enclave: an ephemeral Ed25519 key
/// pair, the initial quote binding its public key, and the node's GPU capacity.
pub struct LseIdentity {
    pub signing_key: Vec<u8>,
    pub verifying_key: Vec<u8>,
    pub q_init: Vec<u8>,
    pub spdm_capacity: u64,
}

impl LseIdentity {
    /// The verifying key is the public key of the 32-byte signing key.
    pub open spec fn wf(&self) -> bool {
        &&& self.signing_key@.len() == 32
        &&& self.verifying_key@.len() == 32
        &&& self.verifying_key@ == spec_ed25519_public_key(self.signing_key@)
    }

    /// Generates a fresh key pair and binds it to the hardware capacity in the
    /// initial quote. Without TDX hardware the quote is the simulated one.
    pub fn new(hardware_type: &str) -> (id: Self)
        ensures
            id.wf(),
            id.spdm_capacity == gpu_capacity_of(hardware_type@),
            id.q_init@ == simulated_quote(id.verifying_key@, id.spdm_capacity as nat),
    {
        Self::from_secret(hardware_type, generate_secret_key())
    }

    /// A freshly generated identity whose signing key differs from this one's. A draw
    /// that repeats the current secret (a chance of 2^-256) has its first bit flipped,
    /// so the new key never equals the retired one.
    pub fn fresh_replacement(&self, hardware_type: &str) -> (id: Self)
        ensures
            id.wf(),
            id.spdm_capacity == gpu_capacity_of(hardware_type@),
            id.q_init@ == simulated_quote(id.verifying_key@, id.spdm_capacity as nat),
            id.signing_key@ != self.signing_key@,
    {
        let mut secret = generate_secret_key();
        if bytes_eq(secret.as_slice(), self.signing_key.as_slice()) {
            let b = secret[0];
            let flipped = b ^ 1u8;
            assert(flipped != b) by (bit_vector)
                requires
                    flipped == b ^ 1u8,
            ;
            secret.set(0, flipped);
            assert(secret@[0] != self.signing_key@[0]);
        }
        Self::from_secret(hardware_type, secret)
    }

    /// The identity of a given 32-byte secret key, bound to the hardware capacity in
    /// the initial quote. Without TDX hardware the quote is the simulated one.
    fn from_secret(hardware_type: &str, signing_key: Vec<u8>) -> (id: Self)
        requires
            signing_key@.len() == 32,
        ensures
            id.wf(),
            id.signing_key@ == signing_key@,
            id.spdm_capacity == gpu_capacity_of(hardware_type@),
            id.q_init@ == simulated_quote(id.verifying_key@, id.spdm_capacity as nat),
    {
        let verifying_key = ed25519_public_key(signing_key.as_slice());
        let spdm_capacity = hardware_capacity(hardware_type);
        // The report data binds the verifying key to the hardware measurement.
        let mut report_data: Vec<u8> = Vec::new();
        append_bytes(&mut report_data, verifying_key.as_slice());
        while report_data.len() < 64
            invariant
                report_data@.len() <= 64,
            decreases 64 - report_data@.len(),
        {
            report_data.push(0u8);
        }
        let q_init = match mock_tdx_attest_get_quote(Some(report_data.as_slice()), None) {
            Ok(quote) => quote,
            Err(_) => simulated_quote_bytes(verifying_key.as_slice(), spdm_capacity),
        };
        LseIdentity { signing_key, verifying_key, q_init, spdm_capacity }
    }
}

} // verus!
