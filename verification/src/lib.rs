//! A verified library for Nim-family combinatorial games: compute nimbers
//! (Grundy values) and legal moves for positions played under configurable
//! rule sets.
//!
//! The primary game types are re-exported at the crate root; move
//! generation, validation and application live in [`moves`]; the nimber
//! evaluator and its cache live in [`nimbers`]; plain-integer counterparts
//! of the helpers live in [`algo`].

mod game;

pub mod algo;
pub mod moves;
pub mod nimbers;

pub use game::GameModel;
pub use game::NimAction;
pub use game::NimGame;
pub use game::NimRule;
pub use game::NimSplit;
pub use game::Nimber;
pub use game::PlaceAction;
pub use game::Player;
pub use game::RuleModel;
pub use game::Split;
pub use game::Stack;
pub use game::TakeAction;
pub use game::TakeModel;
pub use game::TakeSize;
pub use game::place_splits_never;
pub use game::rule_model;
pub use game::rules_model;
pub use game::rules_well_formed;
pub use game::stacks_model;
pub use game::take_amounts_positive;
