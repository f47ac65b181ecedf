//! A validated transaction pool: the in-memory staging area between a node's
//! transaction ingress and its block authoring.
//!
//! The pool takes verdicts on transactions, keeps the valid ones in a
//! dependency graph of tags, hands the ready ones out in an order that block
//! authoring can follow, bans what proved invalid, and tells watchers what
//! becomes of their transactions.
//!
//! - [`model`] says, over sequences of records, what every operation of the
//!   dependency graph does; [`invariants`] and [`laws`] prove what holds of it.
//! - [`base_pool`] is the dependency graph itself.
//! - [`rotator`] is the memory of bans.
//! - [`listener`] and [`watcher`] hand events to those who follow a
//!   transaction.
//! - [`validated_pool`] binds them together; [`resubmit`] is the model of
//!   resubmission after a reorganisation of the chain.

pub mod base_pool;
pub mod channel;
pub mod error;
pub mod facts;
pub mod invariants;
pub mod laws;
pub mod listener;
pub mod model;
pub mod resubmit;
pub mod rotator;
pub mod types;
pub mod validated_pool;
pub mod watcher;
