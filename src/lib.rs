//! Exact decimal digits of Euler's number, by two independent spigots.
mod bignum;

pub mod continued_fraction;
pub mod series;
