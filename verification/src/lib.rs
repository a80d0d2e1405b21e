//! A rule-based cellular automaton engine: named weighted states, guarded
//! transition rules over neighbor counts, a 2-D grid with clipped
//! neighborhoods, a per-generation stepper (sequential and data-parallel),
//! and a bidirectional text grammar for rulesets.

pub mod automaton;
pub mod grid;
pub mod import;
pub mod laws;
pub mod parser;
pub mod random;
pub mod registry;
pub mod rules;
pub mod scan;
pub mod step;
pub mod writer;

pub use automaton::Automaton;
pub use automaton::ExampleModel;
pub use grid::CAGrid;
pub use grid::Neighborhood;
pub use registry::CAState;
pub use rules::ConditionCombiner;
pub use rules::RelationalOperator;
pub use rules::TransitionRule;
