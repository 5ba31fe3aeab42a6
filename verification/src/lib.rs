//! Combination engine for batch generation of unique composite images.
//!
//! The library builds a trait catalog per configuration, draws weighted
//! random combinations of traits, resolves cross-layer exclusion rules,
//! rejects blacklisted trait pairings, fingerprints each accepted
//! combination with a canonical order-independent hash, and drives a
//! bounded-retry loop that guarantees no two accepted combinations in a
//! run share a fingerprint.

pub mod cli;
pub mod config;
pub mod coordinator;
pub mod errors;
pub mod fingerprint;
pub mod layers;
