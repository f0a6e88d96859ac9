//! Equality saturation over arithmetic expressions: an equivalence graph with hashconsing,
//! union-find and congruence repair; rewrite rules matched and applied over it; a scheduler
//! that saturates up to a bound; and a query that looks for a target pattern, with an
//! anonymous symbol wildcard, in a class.

pub mod term;
pub mod egraph;
pub mod checker;
pub mod rewrite;
pub mod runner;
pub mod rules;
