//! A 9x9 number-place (Sudoku) solving engine: bitmask candidate sets,
//! a fixpoint constraint-propagation grid and a resumable depth-first search.
pub mod brute_force;
pub mod entropy;
pub mod entropy_field;
pub mod place;

pub use brute_force::{Attacker, Report};
pub use entropy::{Entropy, EntropyConflictError, Value, ValueIter};
pub use entropy_field::{EntropyField, RuleViolationError};
pub use place::{Block, BlockIter, BlockType, Dependencies, Place, PlaceIter};
