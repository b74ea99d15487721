//! All primes up to a bound, or their count, by a sieve of Eratosthenes over
//! a wheel that skips the multiples of 2, 3 and 5, in windows that bound the
//! working set.
//!
//! - [`wheel`]: the index arithmetic between the numbers a wheel keeps and
//!   their compressed indices, and the rolling cursor over them.
//! - [`primes`]: what a prime is, by trial division, and the sequences of
//!   primes that every result is held to.
//! - [`bitmap`]: the composite bitmap of one window, with marking and
//!   harvest.
//! - [`sieve`]: the sieve of one window, as a plan and its execution.
//! - [`segmented`]: the sliding windows, and the two entry points
//!   [`generate_primes`] and [`count_primes`].
//! - [`dispatch`]: the state of a worker pool's task queue, with its barrier
//!   and its cancellation.

pub mod bitmap;
pub mod dispatch;
pub mod primes;
pub mod segmented;
pub mod sieve;
pub mod wheel;

pub use segmented::{count_primes, generate_primes};
