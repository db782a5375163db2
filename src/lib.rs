//! Arbitrary-precision signed integers, stored as little-endian digit
//! sequences in a large radix, with decimal conversion, comparison,
//! addition, subtraction, and schoolbook and Karatsuba multiplication.
pub mod digits;
pub mod decimal;
pub mod types;
pub mod basic_ops;
pub mod karatsuba;
pub mod laws;
pub mod sort;
