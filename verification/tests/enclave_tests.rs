use ed25519_dalek::{Signature, Signer, SigningKey, Verifier, VerifyingKey};
use sha2::{Digest, Sha256};

use enclavescale::crypto::{hash_payload, mock_tdx_attest_get_quote, LseIdentity};
use enclavescale::gae::{capacity_claim, CapacityClaim, GlobalAggregationEnclave};
use enclavescale::hardware::{classify_hardware, hardware_capacity, is_supported_hardware, HardwareKind};
use enclavescale::lse::{AttestedSubmission, LsePipeline, BATCHES_PER_EPOCH};
use enclavescale::matrix::Matrix;
use enclavescale::telemetry::Discretiser;

fn matrix_of(values: &[f64], nrows: usize, ncols: usize) -> Matrix {
    Matrix { nrows, ncols, data: values.iter().map(|v| v.to_bits()).collect() }
}

fn expected_quote(vk: &[u8], capacity: &str) -> Vec<u8> {
    let mut q = b"TDX_DCAP_QUOTE_BINDING_".to_vec();
    q.extend_from_slice(hex::encode(vk).as_bytes());
    q.extend_from_slice(b"_CAPACITY_");
    q.extend_from_slice(capacity.as_bytes());
    q
}

#[test]
fn mock_quote_always_fails() {
    let r = mock_tdx_attest_get_quote(Some(&[0u8; 64]), None);
    assert_eq!(r, Err("TDX Hardware not detected (Mock)"));
    assert_eq!(mock_tdx_attest_get_quote(None, Some(&[1u8, 2])), Err("TDX Hardware not detected (Mock)"));
}

#[test]
fn hardware_capacity_table() {
    assert_eq!(hardware_capacity("H100"), 8);
    assert_eq!(hardware_capacity("A100"), 8);
    assert_eq!(hardware_capacity("L4"), 1);
    assert_eq!(hardware_capacity("V100"), 1);
    assert_eq!(hardware_capacity(""), 1);
    assert_eq!(classify_hardware("h100"), HardwareKind::Other);
    assert!(is_supported_hardware("L4"));
    assert!(!is_supported_hardware("H1000"));
}

#[test]
fn discretiser_h100_states() {
    let d = Discretiser::new("H100");
    assert_eq!(d.process(-5), 0);
    assert_eq!(d.process(99), 0);
    assert_eq!(d.process(100), 1);
    assert_eq!(d.process(279), 1);
    assert_eq!(d.process(280), 2);
    assert_eq!(d.process(599), 3);
    assert_eq!(d.process(699), 4);
    assert_eq!(d.process(700), 4);
    assert_eq!(d.process(i64::MAX), 4);
}

#[test]
fn discretiser_a100_and_l4_states() {
    let a = Discretiser::new("A100");
    assert_eq!(a.process(59), 0);
    assert_eq!(a.process(60), 1);
    assert_eq!(a.process(349), 3);
    assert_eq!(a.process(350), 4);
    let l = Discretiser::new("L4");
    assert_eq!(l.process(11), 0);
    assert_eq!(l.process(12), 1);
    assert_eq!(l.process(47), 2);
    assert_eq!(l.process(48), 3);
    assert_eq!(l.process(i64::MIN), 0);
}

#[test]
fn discretiser_is_monotone_on_a_sweep() {
    let d = Discretiser::new("H100");
    let mut last = 0;
    for r in -10..800 {
        let s = d.process(r);
        assert!(s >= last);
        assert!(s < 5);
        last = s;
    }
}

#[test]
fn identity_quote_binds_key_and_capacity() {
    let id = LseIdentity::new("H100");
    assert_eq!(id.signing_key.len(), 32);
    assert_eq!(id.verifying_key.len(), 32);
    let sk: [u8; 32] = id.signing_key.as_slice().try_into().unwrap();
    let derived = SigningKey::from_bytes(&sk).verifying_key().to_bytes();
    assert_eq!(id.verifying_key, derived.to_vec());
    assert_eq!(id.spdm_capacity, 8);
    assert_eq!(id.q_init, expected_quote(&id.verifying_key, "8"));
    let l4 = LseIdentity::new("L4");
    assert_eq!(l4.spdm_capacity, 1);
    assert_eq!(l4.q_init, expected_quote(&l4.verifying_key, "1"));
    let other = LseIdentity::new("T4");
    assert_eq!(other.spdm_capacity, 1);
    assert!(other.q_init.ends_with(b"_CAPACITY_1"));
}

#[test]
fn hash_payload_matches_sha256_of_layout() {
    let m = matrix_of(&[0.25, 1.0, -3.5, 0.0], 2, 2);
    let h = hash_payload(&m, "A100", 1_725_000_000, 7);
    let mut hasher = Sha256::new();
    for v in [0.25f64, 1.0, -3.5, 0.0] {
        hasher.update(v.to_le_bytes());
    }
    hasher.update(b"A100");
    hasher.update(1_725_000_000u64.to_le_bytes());
    hasher.update(7u64.to_le_bytes());
    assert_eq!(h, hasher.finalize().to_vec());
    assert_eq!(h.len(), 32);
}

#[test]
fn hash_payload_of_empty_input() {
    let m = Matrix { nrows: 0, ncols: 0, data: Vec::new() };
    let h = hash_payload(&m, "", 0, 0);
    assert_eq!(h, Sha256::digest([0u8; 16]).to_vec());
    assert_eq!(
        hex::encode(&h),
        "374708fff7719dd5979ec875d56cd2286f6d3cf7ec317a3b25632aab28ec37bb"
    );
}

#[test]
fn process_batch_counts_transitions_with_self_loops() {
    let mut p = LsePipeline::new("H100", 5);
    assert_eq!(p.batch_counter(), 0);
    // states: 0, 0, 1, 4, 4, 1
    let counts = p.process_batch(&[50, 60, 150, 900, 701, 100]);
    assert_eq!(p.batch_counter(), 1);
    assert_eq!(counts.num_states, 5);
    assert_eq!(counts.counts.len(), 25);
    let at = |a: usize, b: usize| counts.counts[a * 5 + b];
    assert_eq!(at(0, 0), 1);
    assert_eq!(at(0, 1), 1);
    assert_eq!(at(1, 4), 1);
    assert_eq!(at(4, 4), 1);
    assert_eq!(at(4, 1), 1);
    assert_eq!(counts.counts.iter().sum::<u64>(), 5);
}

#[test]
fn process_batch_of_empty_and_single_traces() {
    let mut p = LsePipeline::new("L4", 5);
    let empty = p.process_batch(&[]);
    assert!(empty.counts.iter().all(|c| *c == 0));
    let single = p.process_batch(&[30]);
    assert!(single.counts.iter().all(|c| *c == 0));
    assert_eq!(p.batch_counter(), 2);
}

#[test]
fn process_batch_larger_state_space() {
    let mut p = LsePipeline::new("A100", 7);
    let counts = p.process_batch(&[500, 500, 500]);
    assert_eq!(counts.counts.len(), 49);
    assert_eq!(counts.counts[4 * 7 + 4], 2);
    assert_eq!(p.discretise(500), 4);
    assert_eq!(p.num_states(), 7);
}

#[test]
fn attested_batch_verifies_with_ed25519() {
    let mut p = LsePipeline::new("H100", 5);
    p.process_batch(&[10, 20]);
    let m = matrix_of(&[0.5; 25], 5, 5);
    let sub = p.attest(m, 42);
    assert_eq!(sub.batch_counter, 1);
    assert_eq!(sub.timestamp, 42);
    assert_eq!(sub.hardware, "H100");
    assert_eq!(sub.q_init, p.identity().q_init);
    let digest = hash_payload(&sub.matrix, "H100", 42, 1);
    let vk = VerifyingKey::from_bytes(&sub.vk.as_slice().try_into().unwrap()).unwrap();
    let sig = Signature::from_bytes(&sub.signature.as_slice().try_into().unwrap());
    assert!(vk.verify(&digest, &sig).is_ok());
    let other = hash_payload(&sub.matrix, "H100", 43, 1);
    assert!(vk.verify(&other, &sig).is_err());
}

#[test]
fn aggregator_admits_fresh_and_rejects_replays() {
    let mut p = LsePipeline::new("A100", 5);
    let mut gae = GlobalAggregationEnclave::new();
    p.process_batch(&[1, 2, 3]);
    let first = p.attest(matrix_of(&[0.2; 25], 5, 5), 100);
    match gae.verify_submission(&first) {
        Some(CapacityClaim::Quoted(text)) => assert_eq!(text, b"8".to_vec()),
        _ => panic!("first batch must be admitted with its quoted capacity"),
    }
    assert_eq!(gae.last_accepted(&first.vk), 1);
    assert!(gae.verify_submission(&first).is_none());
    p.process_batch(&[1, 2, 3]);
    let second = p.attest(matrix_of(&[0.2; 25], 5, 5), 110);
    assert!(gae.verify_submission(&second).is_some());
    assert_eq!(gae.last_accepted(&second.vk), 2);
    assert!(gae.verify_submission(&first).is_none());
}

#[test]
fn aggregator_rejects_tampered_batches() {
    let mut p = LsePipeline::new("L4", 5);
    let mut gae = GlobalAggregationEnclave::new();
    p.process_batch(&[1, 2]);
    let sub = p.attest(matrix_of(&[0.1; 25], 5, 5), 9);
    let mut tampered = AttestedSubmission {
        matrix: matrix_of(&[0.9; 25], 5, 5),
        q_init: sub.q_init.clone(),
        vk: sub.vk.clone(),
        signature: sub.signature.clone(),
        hardware: sub.hardware.clone(),
        timestamp: sub.timestamp,
        batch_counter: sub.batch_counter,
    };
    assert!(gae.verify_submission(&tampered).is_none());
    tampered.matrix = matrix_of(&[0.1; 25], 5, 5);
    tampered.batch_counter = 2;
    assert!(gae.verify_submission(&tampered).is_none());
    tampered.batch_counter = 1;
    tampered.signature.truncate(10);
    assert!(gae.verify_submission(&tampered).is_none());
    assert_eq!(gae.last_accepted(&sub.vk), 0);
    assert!(gae.verify_submission(&sub).is_some());
}

/// A submission signed directly with `secret`, as an enclave holding that key would.
fn signed_submission(secret: &[u8], q_init: &[u8], batch_counter: u64) -> AttestedSubmission {
    let sk = SigningKey::from_bytes(&secret.try_into().unwrap());
    let matrix = matrix_of(&[0.0; 25], 5, 5);
    let digest = hash_payload(&matrix, "H100", 5, batch_counter);
    AttestedSubmission {
        matrix,
        q_init: q_init.to_vec(),
        vk: sk.verifying_key().to_bytes().to_vec(),
        signature: sk.sign(&digest).to_bytes().to_vec(),
        hardware: "H100".to_string(),
        timestamp: 5,
        batch_counter,
    }
}

#[test]
fn aggregator_rejects_counter_zero_and_keeps_keys_apart() {
    let mut a = LsePipeline::new("H100", 5);
    let mut b = LsePipeline::new("H100", 5);
    let mut gae = GlobalAggregationEnclave::new();
    let id = a.identity();
    let zero = signed_submission(&id.signing_key, &id.q_init, 0);
    assert!(gae.verify_submission(&zero).is_none());
    a.process_batch(&[]);
    let _ = a.attest(matrix_of(&[0.0; 25], 5, 5), 1);
    a.process_batch(&[]);
    b.process_batch(&[]);
    let from_a = a.attest(matrix_of(&[0.0; 25], 5, 5), 1);
    let from_b = b.attest(matrix_of(&[0.0; 25], 5, 5), 1);
    assert!(gae.verify_submission(&from_a).is_some());
    assert!(gae.verify_submission(&from_b).is_some());
    assert_eq!(gae.last_accepted(&from_a.vk), 2);
    assert_eq!(gae.last_accepted(&from_b.vk), 1);
}

#[test]
fn aggregator_checks_that_simulated_quotes_bind_the_key() {
    let mut gae = GlobalAggregationEnclave::new();
    let honest = LseIdentity::new("H100");
    let other = LseIdentity::new("H100");
    let own = signed_submission(&honest.signing_key, &honest.q_init, 1);
    let foreign = signed_submission(&honest.signing_key, &other.q_init, 1);
    assert!(gae.verify_submission(&foreign).is_none());
    let junk = signed_submission(&honest.signing_key, b"TDX_DCAP_QUOTE_BINDING_junk", 1);
    assert!(gae.verify_submission(&junk).is_none());
    let mut fractional = expected_quote(&honest.verifying_key, "2.5");
    let fractional_sub = signed_submission(&honest.signing_key, &fractional, 1);
    assert!(gae.verify_submission(&fractional_sub).is_none());
    fractional.truncate(fractional.len() - 3);
    fractional.extend_from_slice(b"3");
    let three = signed_submission(&honest.signing_key, &fractional, 1);
    assert_eq!(gae.last_accepted(&honest.verifying_key), 0);
    match gae.verify_submission(&three) {
        Some(CapacityClaim::Quoted(text)) => assert_eq!(text, b"3".to_vec()),
        _ => panic!("a quote binding the key with capacity 3 is admitted"),
    }
    assert!(gae.verify_submission(&own).is_none());
    let own2 = signed_submission(&honest.signing_key, &honest.q_init, 2);
    assert!(gae.verify_submission(&own2).is_some());
}

#[test]
fn aggregator_admits_hardware_quotes_by_counter_and_signature() {
    let mut gae = GlobalAggregationEnclave::new();
    let id = LseIdentity::new("A100");
    let hw = signed_submission(&id.signing_key, b"DCAP-QUOTE-BYTES", 1);
    match gae.verify_submission(&hw) {
        Some(CapacityClaim::Registry(gpus)) => assert_eq!(gpus, 8),
        _ => panic!("a hardware quote is weighted by the hardware model"),
    }
    assert!(gae.verify_submission(&hw).is_none());
}

fn bare_submission(q_init: &[u8], hardware: &str) -> AttestedSubmission {
    AttestedSubmission {
        matrix: Matrix { nrows: 0, ncols: 0, data: Vec::new() },
        q_init: q_init.to_vec(),
        vk: vec![0u8; 32],
        signature: vec![0u8; 64],
        hardware: hardware.to_string(),
        timestamp: 0,
        batch_counter: 1,
    }
}

fn quoted(c: CapacityClaim) -> Vec<u8> {
    match c {
        CapacityClaim::Quoted(t) => t,
        CapacityClaim::Registry(_) => panic!("expected a quoted capacity"),
    }
}

fn registry(c: CapacityClaim) -> u64 {
    match c {
        CapacityClaim::Registry(g) => g,
        CapacityClaim::Quoted(_) => panic!("expected a registry capacity"),
    }
}

#[test]
fn capacity_claim_reads_simulated_quotes() {
    let s = bare_submission(b"TDX_DCAP_QUOTE_BINDING_00ff_CAPACITY_8", "L4");
    assert_eq!(quoted(capacity_claim(&s)), b"8".to_vec());
    let s = bare_submission(b"TDX_DCAP_QUOTE_BINDING_00ff_CAPACITY_2.5_CAPACITY_9", "L4");
    assert_eq!(quoted(capacity_claim(&s)), b"2.5".to_vec());
    let s = bare_submission(b"TDX_DCAP_QUOTE_BINDING_00ff", "L4");
    assert_eq!(quoted(capacity_claim(&s)), b"0.0".to_vec());
    let s = bare_submission(b"TDX_DCAP_QUOTE_BINDING_x_CAPACITY_", "L4");
    assert_eq!(quoted(capacity_claim(&s)), Vec::<u8>::new());
    let s = bare_submission(b"TDX_DCAP_QUOTE_BINDING__CAPACITY_CAPACITY_3", "L4");
    assert_eq!(quoted(capacity_claim(&s)), b"CAPACITY_3".to_vec());
}

#[test]
fn capacity_claim_falls_back_to_hardware() {
    assert_eq!(registry(capacity_claim(&bare_submission(b"REAL-DCAP-QUOTE", "H100"))), 8);
    assert_eq!(registry(capacity_claim(&bare_submission(b"REAL-DCAP-QUOTE", "A100"))), 8);
    assert_eq!(registry(capacity_claim(&bare_submission(b"", "L4"))), 1);
    assert_eq!(registry(capacity_claim(&bare_submission(b"TDX_DCAP", "Other"))), 1);
}

#[test]
fn epoch_rotation_every_sixty_batches() {
    let mut p = LsePipeline::new("L4", 5);
    assert_eq!(BATCHES_PER_EPOCH, 60);
    assert!(p.epoch_complete());
    let old_vk = p.identity().verifying_key.clone();
    for i in 1..=60u64 {
        p.process_batch(&[]);
        assert_eq!(p.batch_counter(), i);
        assert_eq!(p.epoch_complete(), i == 60);
    }
    p.rotate_epoch();
    assert_eq!(p.batch_counter(), 0);
    assert_eq!(p.hardware_type(), "L4");
    assert_ne!(p.identity().verifying_key, old_vk);
    assert_eq!(p.identity().q_init, expected_quote(&p.identity().verifying_key, "1"));
}
