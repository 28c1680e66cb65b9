//! Arbitrary-precision signed integers in sign-magnitude form.
//!
//! A value is a sign flag together with a sequence of base-2^64 limbs,
//! least significant first, kept in a canonical normalized form: no
//! leading zero limbs, and zero is always non-negative. The operations
//! (comparison, addition, subtraction, negation) are verified against a
//! mathematical model that maps each limb sequence to the natural number
//! it denotes.

pub mod limbs;
pub mod number;
