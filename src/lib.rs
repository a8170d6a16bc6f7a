//! Polynomial-ring operations as halo2 circuit components: coefficient-wise
//! addition, scalar multiplication and reduction modulo a ring modulus,
//! polynomial multiplication, and division by a cyclotomic polynomial whose
//! quotient and remainder are computed outside the constraints and then
//! checked by them.
//!
//! `poly` holds the integer model of coefficient vectors and its laws,
//! `circuit` the constraint session and its gates, `chips` the operations.

pub mod chips;
pub mod circuit;
pub mod poly;
