//! A small linear-algebra toolkit: a scalar that is either an exact rational
//! or an IEEE-754 double, dense matrices and vectors over it.
pub mod gcd;
pub mod ieee;
pub mod linnum;
pub mod matrix;
pub mod vector;
