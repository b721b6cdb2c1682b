//! The repository model of the first simulator: log concepts, the subset of
//! TUF metadata that the simulation tracks, and conversions between them.
pub mod hash_to_prime;
pub mod log;
pub mod rsa_accumulator;
pub mod tuf;
pub mod tuf_log;
