//! Combinations of the elements of a vector, enumerated through bit masks.
//!
//! Index `p` names the subset holding `v[i]` for each set bit `i` of `p`, in
//! the order of `v`. The enumerations walk the indices 1 through 2^n - 1 in
//! ascending order, so index `p` is also the `p`-th subset of the full
//! enumeration, counting from 1. Equal elements of `v` are not merged: a
//! vector with repeated elements gives repeated subsets.
pub mod enumerate;
pub mod laws;
pub mod model;

pub use enumerate::{
    all, all_qualifying, all_qualifying_positions, combinations, combinations_positions,
    combinations_qualifying_positions, get_subset,
};
