//! Proof-of-work nonce search over SHA-1: find the smallest nonce whose decimal
//! text, appended to a fixed payload, hashes to a target digest.
pub mod decimal;
pub mod digest;
pub mod sequential;
pub mod batched;
