//! Volume of a solid-of-revolution hull built from conical-frustum sections.
//!
//! A hull is an ordered sequence of sections; each section is given by two
//! end radii and a height, and its volume is `(r1^2 + r1*r2 + r2^2) * d * pi / 3`.
//! All geometry here is carried out over exact rational numbers; the factor
//! `pi` is kept symbolic, so every function that speaks of a volume returns
//! the rational coefficient `c` with `volume == c * pi`.

pub mod driver;
pub mod hull;
pub mod parse;
pub mod rat;

pub use hull::Hull;
pub use hull::HullSection;
pub use rat::Rational;
