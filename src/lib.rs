//! Orchestration core for workflow graphs whose nodes run on outside compute
//! queues: the node model and store, the readiness and fan-in join
//! predicates, queue leases, per-kind start strategies, the scheduling pass
//! and the status receiver that drives a workflow to completion.

pub mod model;
pub mod predicates;
pub mod store;
pub mod queue;
pub mod usecase;
pub mod engine;
pub mod receiver;
pub mod scheduler;
