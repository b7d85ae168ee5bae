//! A counting semaphore for single-threaded cooperative schedulers.
//!
//! The semaphore is a state machine: a pool of units, a first-come-first-served
//! queue of requests that could not be granted at once, a closed flag, and a
//! waiter for every request whose task is suspended. No operation blocks: an
//! attempt to acquire is granted, refused or queued, and the task of a queued
//! request suspends until a signal or a close resumes it through the handle
//! that its last poll left with its waiter. Then it tries again from the start.
//!
//! `model` holds the semaphore as a mathematical value, `state` the pool and
//! the queue, `waiter` the waiter of one request, `semaphore` the whole, and
//! `laws` what holds of every run.

pub mod error;
pub mod laws;
pub mod model;
pub mod semaphore;
pub mod state;
pub mod waiter;
