//! Paid pinning of content-addressed objects.
//!
//! A publisher has objects held by hosts, for rent. Hosts are chosen by what they have proven to
//! deliver and spread over fault domains; they hold what they committed to until its lease runs out
//! or space does; and they are audited by challenges that only a holder of the bytes can answer.
//!
//! This crate is the part of that which decides and computes. Nothing in it reads a file, a clock
//! or a socket: where a decision needs something from outside, the caller fetches it and hands it
//! in.
//!
//! - [`placement`] ranks hosts and chooses among them.
//! - [`audit`] makes challenges, proofs and verdicts.
//! - [`held`] is the record of what a host holds, with expiry and eviction.
//! - [`config`] holds the limits of a host and the admission rule.
//! - [`host`] takes the requests that a host gets from screening to reply.
//! - [`metrics`] counts what a host does.
//! - [`proto`] defines the messages.
//! - [`pinset`] is the record of what a publisher has pinned.
//! - [`client`] places replicas, prices rent and audits for a publisher.
//! - [`repair`] keeps the number of replicas up.
//! - [`roots`] and [`caps`] read whose capabilities count and which one to present.
//! - [`digest`], [`text`], [`order`] and [`table`] are what the others are built from.

pub mod audit;
pub mod caps;
pub mod client;
pub mod config;
pub mod digest;
pub mod held;
pub mod host;
pub mod metrics;
pub mod order;
pub mod pinset;
pub mod placement;
pub mod proto;
pub mod repair;
pub mod roots;
pub mod table;
pub mod text;

pub use roots::load_roots;
