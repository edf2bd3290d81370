//! Conversion of short Weierstrass curves over a prime field to Montgomery
//! form, with the modular arithmetic it rests on: the extended Euclidean
//! algorithm, modular inverses and Tonelli–Shanks square roots.
pub mod bigint;
pub mod error;
pub mod euclid;
pub mod fermat;
pub mod sqrt;
pub mod montgomery;
