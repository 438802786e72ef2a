//! Verified core of a probabilistic-logic and zero-knowledge toolkit: an
//! arithmetic constraint IR, its R1CS lowering, a canonical polynomial
//! normal form used to check circuits against the comparisons they encode
//! and variance formulas against their identities, and the lowering of
//! straight-line integer functions into circuits.
pub mod args;
pub mod backends;
pub mod check;
pub mod circuit;
pub mod constraint;
pub mod gate;
pub mod graph;
pub mod identity;
pub mod lower;
pub mod lower_ast;
pub mod lowering;
pub mod poly;
pub mod r1cs;
pub mod text;
pub mod variance;
pub mod zk;
