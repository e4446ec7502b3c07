//! Data structures keyed by approximate floating-point comparisons.
//!
//! Floating-point values are carried as their IEEE 754 bit patterns inside
//! [`Scalar`], so that every comparison, bucketing and interning step is
//! exact integer arithmetic with a proved contract.

pub mod scalar;
pub mod precision;
pub mod pool;
pub mod traits;
pub mod hash_map;

pub use scalar::Scalar;
pub use precision::Precision;
pub use pool::FloatPool;
pub use traits::ApproxEq;
pub use traits::ApproxEqZero;
pub use traits::ApproxOrd;
pub use traits::ApproxCmpZero;
pub use traits::ApproxInternable;
pub use traits::ApproxHash;
pub use traits::HashState;
pub use hash_map::ApproxHashMap;
