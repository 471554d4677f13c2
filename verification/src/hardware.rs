//! Accelerator models known to the deployment, and what each implies.

use vstd::prelude::*;
use crate::bytes::bytes_eq;

verus! {

/// The name `H100`.
pub open spec fn h100_name() -> Seq<u8> {
    seq![72u8, 49u8, 48u8, 48u8]
}

/// The name `A100`.
pub open spec fn a100_name() -> Seq<u8> {
    seq![65u8, 49u8, 48u8, 48u8]
}

/// The name `L4`.
pub open spec fn l4_name() -> Seq<u8> {
    seq![76u8, 52u8]
}

/// The accelerator model that a hardware name denotes.
#[derive(Clone, Copy, Debug, PartialEq, Eq, Structural)]
pub enum HardwareKind {
    H100,
    A100,
    L4,
    Other,
}

/// Model denoted by the UTF-8 bytes of a hardware name.
pub open spec fn hardware_kind(name: Seq<u8>) -> HardwareKind {
    if name == h100_name() {
        HardwareKind::H100
    } else if name == a100_name() {
        HardwareKind::A100
    } else if name == l4_name() {
        HardwareKind::L4
    } else {
        HardwareKind::Other
    }
}

/// Number of GPUs that a node of the given hardware contributes
/// (8x H100 on a3-highgpu-8g, 8x A100 on a2-highgpu-8g, 1x L4 on g2-standard-4,
/// and one for any other name).
pub open spec fn gpu_capacity(name: Seq<u8>) -> nat {
    match hardware_kind(name) {
        HardwareKind::H100 => 8,
        HardwareKind::A100 => 8,
        _ => 1,
    }
}

/// Largest capacity, in GPUs, that the PKI registry admits for one instance.
pub const REGISTRY_CAP_GPUS: u64 = 8;

/// Which model a hardware name denotes.
pub fn classify_hardware(name: &str) -> (k: HardwareKind)
    ensures
        k == hardware_kind(vstd::utf8::encode_utf8(name@)),
{
    let b = name.as_bytes();
    let h100: Vec<u8> = vec![72u8, 49u8, 48u8, 48u8];
    let a100: Vec<u8> = vec![65u8, 49u8, 48u8, 48u8];
    let l4: Vec<u8> = vec![76u8, 52u8];
    assert(h100@ =~= h100_name());
    assert(a100@ =~= a100_name());
    assert(l4@ =~= l4_name());
    if bytes_eq(b, h100.as_slice()) {
        HardwareKind::H100
    } else if bytes_eq(b, a100.as_slice()) {
        HardwareKind::A100
    } else if bytes_eq(b, l4.as_slice()) {
        HardwareKind::L4
    } else {
        HardwareKind::Other
    }
}

/// Whether the telemetry discretiser has a threshold table for this hardware.
pub fn is_supported_hardware(name: &str) -> (r: bool)
    ensures
        r == (hardware_kind(vstd::utf8::encode_utf8(name@)) != HardwareKind::Other),
{
    match classify_hardware(name) {
        HardwareKind::Other => false,
        _ => true,
    }
}

/// GPU capacity that a node of this hardware contributes.
pub fn hardware_capacity(name: &str) -> (c: u64)
    ensures
        c == gpu_capacity(vstd::utf8::encode_utf8(name@)),
        1 <= c <= REGISTRY_CAP_GPUS,
{
    match classify_hardware(name) {
        HardwareKind::H100 => 8,
        HardwareKind::A100 => 8,
        HardwareKind::L4 => 1,
        HardwareKind::Other => 1,
    }
}

} // verus!
