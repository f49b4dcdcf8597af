//! A set-associative CPU cache simulator with a deterministic two-valued
//! timing model, together with simulations of four classic timing
//! side-channel attacks (Prime+Probe, Flush+Reload, Spectre, Meltdown).
//!
//! The cache engine decomposes 64-bit addresses into tag, set index and byte
//! offset, stores lines in fixed-size sets under a configurable replacement
//! policy (LRU, FIFO or deterministic pseudo-random), and classifies every
//! access as a hit (1 cycle) or a miss (100 cycles).  The attack modules
//! drive a cache through scripted access and flush sequences and classify
//! the observed cycle counts into booleans or recovered byte values.

pub mod cache_config;
pub mod line;
pub mod set;
pub mod cache;
pub mod attacks;
pub mod measurement;
