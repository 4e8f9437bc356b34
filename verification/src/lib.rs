//! Integer and text logic of a canonical-ensemble lattice-fermion toolkit:
//! occupation-bitmask bases of the one-dimensional Hubbard chain, their
//! Jordan-Wigner hopping structure and Hilbert-space dimensions, the
//! parameter-sweep grid, and the configuration rules that need no
//! floating point. Each public function carries a contract proved by Verus.

pub mod bench;
pub mod config;
pub mod density;
pub mod many_body_ed;
pub mod mixing;
pub mod occupation;
pub mod output;
pub mod reference;
pub mod spectrum;
pub mod sweep;
pub mod text;
pub mod xc;
