//! Linear Temporal Logic for agents: parsing, normal forms,
//! safety/liveness classification and checking of lasso-shaped traces.
pub mod aliases;
pub mod formula;
pub mod normal_form;
pub mod parser;
pub mod round_trip;
pub mod safety_liveness;
pub mod satisfaction;
pub mod spacing;
pub mod trace;
pub mod unbounded;

pub use formula::LtlFormula;
pub use normal_form::to_nnf;
pub use parser::parse;
pub use safety_liveness::{classify, SafetyLiveness};
pub use satisfaction::satisfies;
pub use trace::Trace;
