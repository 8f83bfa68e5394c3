//! Optimal ordering of treats handed to a line of puppies.
//!
//! Treats of integer sizes are given out one per puppy along a line; the
//! happiness of a line is scored over consecutive triples of treat sizes.
//! [`solve`] searches for an ordering of a multiset of treats with the
//! highest happiness, seeded by the heuristic ordering of [`guess`].
mod counts;
mod guess;
mod score;
mod search;

pub use counts::{count_in, pairs_of, singles_and_pairs, singles_of, table_of, total, treat_size_counts};
pub use guess::{assemble, guess, guess_order, least_above, rebalanced};
pub use score::{score, score_of, transition_delta, Puppies};
pub use search::{completes, holds_counts, permutation_helper, search, search_sizes, solution_of, solve};

