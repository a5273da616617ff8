//! Fast Walsh transforms over fixed-length integer sequences.
//!
//! Walsh functions are a binary-valued alternative to the Fourier basis
//! functions; together they form a complete orthogonal basis, so a
//! sequence can be carried into Walsh coefficients and back using only
//! additions and subtractions.  This crate provides the two classic
//! O(n log n) fast transforms — sequency (Manz) ordering and Hadamard
//! (natural) ordering — over sequences whose length is a power of two,
//! together with the power-of-two validator both transforms rely on.
//!
//! Each transform is its own inverse up to a factor of the sequence
//! length: applying the same transform twice multiplies every element
//! by the length.  The `laws` module proves this for the Hadamard
//! ordering and the identity behaviour of both transforms on one-element
//! sequences; the `seq_laws` module proves it for the sequency ordering.

pub mod bitrev;
pub mod hadamard;
pub mod laws;
pub mod pow2;
pub mod seq_laws;
pub mod sequency;
pub mod walsh;

pub use hadamard::hadamard;
pub use pow2::power_of_2;
pub use sequency::sequency;
