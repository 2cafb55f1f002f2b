//! Hybrid public-key encryption over finite groups: modular integers,
//! elliptic curves, byte codecs and the scheme composers built on them.

pub mod algo;
pub mod bytes;
pub mod curve;
pub mod el_gamal;
pub mod group;
pub mod hybrid;
pub mod natural;
pub mod p224;
pub mod poly;
pub mod schemes;
pub mod stringer;
pub mod vectorized;
pub mod zn;
pub mod zp;
