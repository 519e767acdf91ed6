//! A store-and-forward broadcast chat protocol for beacon-style advertising
//! media: fixed-layout wire frames, message fragmentation and reassembly,
//! duplicate suppression, TTL-bounded flood relay, per-fragment authenticated
//! encryption, and token-bucket pacing of outbound transmissions.

pub mod codec;
pub mod crypto;
pub mod dedup;
pub mod engine;
pub mod fragment;
pub mod rate_limiter;
pub mod reassembly;
