pub mod bits;
pub mod hash;
pub mod km;
pub mod filter;
pub mod laws;
