//! Simulation of secure software-repository authenticators.
pub mod accumulator;
pub mod authenticator;
pub mod bigint;
pub mod data_size;
pub mod hash_to_prime;
pub mod keyed_map;
pub mod log;
pub mod multiset;
pub mod poke;
pub mod primitives;
pub mod repository;
pub mod util;

