pub mod cyclotomic;
pub mod integers;

pub use crate::cyclotomic::CyclotomicError;
pub use crate::cyclotomic::CyclotomicInteger;
pub use crate::integers::euler_phi;
pub use crate::integers::gcd;
pub use crate::integers::invertible_mod;
