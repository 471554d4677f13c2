//! Verified core of the EnclaveScale edge-sanitisation and aggregation pipeline.

pub mod bytes;
pub mod crypto;
pub mod gae;
pub mod hardware;
pub mod lse;
pub mod matrix;
pub mod telemetry;
