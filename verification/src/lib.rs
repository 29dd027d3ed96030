//! Client-side engine for a threshold, time-locked secret-sharing scheme.
//!
//! A sender splits a secret across independent key servers; each server holds
//! one share behind a dead-man's-switch timelock that the sender keeps alive by
//! pinging. A receiver holds references to the same servers and can rebuild the
//! secret once every key of at least one threshold combination has unlocked.
//!
//! This crate holds the verified core: the vault-configuration model, the
//! fail-closed aggregation of per-key outcomes into sender and receiver states,
//! the secret-creation protocol, the ordering kernel of the fan-out executor,
//! and the canonical record codec. Network transport and local storage stay
//! outside; the cryptographic primitives are called through trusted wrappers.

pub mod aggregate;
pub mod codec;
pub mod create;
pub mod crypto;
pub mod fanout;
pub mod outcome;
pub mod records;
pub mod time;
pub mod vault;
