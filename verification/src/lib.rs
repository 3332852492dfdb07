//! Exhaustive enumeration of bounded choices for driving repeated test runs.
//!
//! A test body is wrapped in a `while !g.done()` loop; inside the loop it asks
//! the enumerator [`Gen`] for bounded integers.  Across successive runs the
//! enumerator plays back every combination of choices exactly once, like a
//! mixed-radix odometer whose digits are discovered as the body asks for them.

pub mod combinators;
pub mod enumerator;
pub mod laws;
pub mod model;

pub use enumerator::Gen;
