//! A CDCL satisfiability solver for propositional formulas in conjunctive
//! normal form, with watched literals, first-UIP clause learning, backjumping
//! and restarts.
use vstd::prelude::*;

pub mod clause;
pub mod cnf;
pub mod decision_provider;
pub mod laws;
pub mod literal;
mod maps;
pub mod measure;
pub mod parser;
pub mod solver;
pub mod variable;

