//! Memoized evaluation of monotonic, integer-indexed recurrences.
//!
//! A recurrence (Fibonacci, prime enumeration, ...) is advanced step by step
//! from cached intermediate states ("phases"), so that a query for a large
//! index resumes from the closest earlier checkpoint instead of recomputing
//! from the start.

pub mod caches;
pub mod calculators;
pub mod machines;
pub mod phases;

pub use caches::{CacheError, MachineCache};
pub use calculators::{Fibonacci, Primes};
pub use machines::{lru_calculate, raw_calculate, Calculator, Machine, MachineError};
pub use phases::{MMInt, MMSize, Phase};
