//! Concurrency-control core for a transactional data store: shared/exclusive
//! locks on addressable resources, a lock table keeping per-resource grants
//! and per-operation holdings consistent, a lock manager protocol for
//! acquiring, upgrading, blocking on and releasing locks, and a wait-for
//! graph deadlock detector with youngest-victim selection.

pub mod decimal;
pub mod lock;
pub mod dead_lock_detector;
pub mod lock_mgr;
pub mod operation;
pub mod operation_scheduler;
pub mod segment;
