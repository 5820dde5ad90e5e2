//! A cooperative green-thread scheduler: a fixed pool of threads, each with
//! its own stack, a round-robin choice of the next ready thread, and the
//! bootstrap layout that lets a fresh stack begin running an entry function.
//!
//! The library decides; the register switch itself is done by the caller,
//! which receives a [`runtime::Switch`] naming the contexts to save and load.
use vstd::prelude::*;

pub mod thread;
pub mod runtime;
pub mod capacity;
pub mod fairness;
