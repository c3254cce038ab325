//! Propositional logic on small formulas: arithmetic made of bitwise
//! operations, formulas in reverse polish notation, their trees, their
//! truth tables, their normal forms and their satisfiability.

pub mod bits;
pub mod cnf;
pub mod exercises;
pub mod formula;
pub mod nnf;
pub mod op;
pub mod parser;
pub mod table;

pub use bits::{adder, gray_code, multiplier};
pub use exercises::{
    clause_strings, conjunctive_normal_form, eval_formula, negation_normal_form, sat, truth_table,
};
pub use formula::Formula;
pub use op::Op;
pub use parser::{parse, parse_constants, ParseError};
