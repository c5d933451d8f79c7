//! Concurrency core of a single-core cooperative runtime: a nestable
//! interrupt-masking critical section, an interrupt-safe cell, a registry of
//! wake conditions, and a task executor, with their contracts proved.
use vstd::prelude::*;

pub mod critical_section;
pub mod mutex;
pub mod reactor;
pub mod executor;
pub mod lcd;
pub mod ai_vision;

verus! {

} // verus!
