//! Circular and spherical harmonics: compact coefficient vectors that
//! approximate a function on the circle or on the unit sphere.
//!
//! The library owns the layout of the coefficient vectors: which term
//! belongs to which band, how long a vector is, which terms an operation
//! reads and writes, and in which order. It is generic over the scalar type
//! `T` of the coefficients. Whatever is arithmetic on scalars (a product, a
//! sine, a sum) is handed in by the caller as a closure, and every contract
//! states the result in terms of what that closure returns.
pub mod circ_harmonics;
pub mod fold;
pub mod spherical_harmonics;

pub use circ_harmonics::{band_terms, basis_term, term_to_band, BasisTerm, CircularHarmonics};
pub use spherical_harmonics::{kernel_slot, sh_basis, term_count, term_level, SphericalHarmonics, MAX_LEVELS};
