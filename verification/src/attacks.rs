//! Timing side-channel attack simulations built on the cache engine.

pub mod flush_reload;
pub mod meltdown_sim;
pub mod prime_probe;
pub mod spectre_sim;
