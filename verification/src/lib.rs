//! Resumable sweep engine for the 32-bit address space.
//!
//! The address space is partitioned into fixed-size blocks; every address in
//! a block is probed under a bounded fan-out cap, and block completion is
//! recorded through a crash-consistent progress ledger so that an interrupted
//! sweep can resume without re-scanning completed work or skipping gaps.
//!
//! The probing transport and the durable store are external collaborators:
//! this crate decides which addresses to probe, bounds the probes in flight,
//! plans the ordered store operations of a commit, and rebuilds the resume
//! state from what the store reports.

pub mod ledger;
pub mod partition;
pub mod scanner;
pub mod scheduler;
pub mod seq_facts;
