pub mod constants;
pub mod err;
pub mod outcome;
pub mod scoring;
pub mod state;
pub mod store;
pub mod valuation;

pub use outcome::{
    Outcome, OutcomeIterator, OutcomePredecessorIterator, OutcomeSuccessorIterator,
    max_outcome_encoding, outcomes, parse_outcome, sub_outcomes,
};
pub use scoring::{Action, actions, possible_scores};
pub use state::State;
pub use valuation::{choose_reroll, each_subset};
