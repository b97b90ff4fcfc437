//! An interactive-menu numerics library: a verified Sieve of Eratosthenes,
//! input parsing and menu selection, and the integer bookkeeping behind a
//! Leibniz-series pi estimate (term shapes and progress percentages).
//!
//! Console I/O, threads and the floating-point summation itself live in the
//! surrounding application; everything here is verified.

use vstd::prelude::*;

pub mod menu;
pub mod parse;
pub mod pi;
pub mod sieve;

verus! {

/// `n` is prime: at least 2, and no integer in `[2, n)` divides it.
pub open spec fn is_prime(n: int) -> bool {
    n >= 2 && forall|d: int| 2 <= d < n ==> #[trigger] (n % d) != 0
}

} // verus!
