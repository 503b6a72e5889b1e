//! A verified dice-expression library: a model of dice, dice sets and
//! conditional decision rolls, a tolerant notation parser and keystroke
//! sanitizer for the `NdS[+O][,NdS[+O]]*` grammar, and a Monte Carlo
//! simulation engine (sequential and parallel) that turns an expression
//! into a histogram of outcomes.

pub mod comparison;
pub mod decision;
pub mod dice;
pub mod groups;
pub mod parse;
pub mod rollable;
pub mod sanitize;
pub mod sim;
pub mod sums;
pub mod text;

pub use comparison::Comparison;
pub use comparison::do_comparison;
pub use decision::Decision;
pub use decision::DecisionSet;
pub use dice::Dice;
pub use dice::DiceSet;
pub use parse::parse_dice;
pub use sanitize::parse_and_discard;
pub use sanitize::get_valid_dice;
pub use sim::combine_histograms;
pub use sim::run_sim;
pub use sim::run_sim_parallel;
pub use sim::run_sim_decision;
pub use sim::get_histogram;
pub use rollable::Rollable;
