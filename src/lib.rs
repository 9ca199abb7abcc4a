//! A constraint solver for puzzle-style problems.
//!
//! Variables take values from finite domains; constraints (sums, products, permutations,
//! per-value counts, predicates, membership in a list of sequences) relate them. The joint state
//! is a table of independent partitions whose cross product is what may still be; each kind of
//! constraint summarises groups of positions with `and`, `or` and `check`, so that tuples can be
//! ruled out without enumerating the joint space. Solving alternates propagation to a fixpoint
//! with merging the pair of partitions whose merge leaves the fewest tuples.


pub mod logic;
pub mod interval;
pub mod pred;
pub mod bag;
pub mod permutation;
pub mod count;
pub mod sequence;
pub mod rule;
pub mod model;
pub mod chain;
pub mod table;
pub mod propagate;
pub mod solver;
pub mod textbox;
pub mod state;
