//! A small symbolic-algebra engine: expression trees over any ordered ring,
//! a canonical order on them, a rewriting simplifier, and the algebraic
//! structures (groups, rings, vectors, matrices) they are built on.
pub mod algebra;
pub mod expression;
pub mod matrix;
pub mod symbolic;
pub mod laws;
pub mod points;
pub mod projection;
