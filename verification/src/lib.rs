//! Token-bucket admission control for many servers that share one
//! key-value store.
//!
//! Each client has a bucket under a key derived from its identity. A request
//! spends one token; whole hours refill the bucket up to its cap. The store
//! offers no atomic update of a record, so a request watches the key, reads
//! it, and commits the new bucket only if nobody else wrote in between;
//! the loser of such a race starts over, a bounded number of times.
//!
//! This crate holds the decisions and proves them; it sends nothing itself.
//! The caller owns the connection and the clock: it performs the command
//! that a [`transactor::Transactor`] asks for and hands back what the store
//! answered.
//!
//! - [`key`]: the store key of a client.
//! - [`bucket`], [`codec`], [`decimal`]: the record and its stored form.
//! - [`policy`], [`time`]: the refill rule.
//! - [`reply`]: reading the store's answers.
//! - [`transactor`]: one attempt as a state machine.
//! - [`admission`]: what the end of an attempt means for the request.
//! - [`concurrency`]: a model of racing attempts, and the proof that no
//!   token is spent twice.
//! - [`config`]: the settings.

pub mod time;
pub mod config;
pub mod bucket;
pub mod policy;
pub mod decimal;
pub mod codec;
pub mod reply;
pub mod key;
pub mod transactor;
pub mod admission;
pub mod concurrency;
