//! Signed-subset-sum search: which fields of a payslip, added or
//! subtracted, come closest to a target amount.
//!
//! The library enumerates every (selection, sign) combination once, gives
//! each a canonical identity, and ranks scored combinations in a bounded
//! collection that can be built in parts and merged.
//!
//! Deviations are never computed here. They enter as unsigned ordering
//! keys: for a non-negative IEEE-754 double its bit pattern, which orders
//! as the number does.

pub mod combine;
pub mod combinedresult;
pub mod dataset;
pub mod display;
pub mod masked_permutation;
pub mod permutation;
pub mod progress;
pub mod ranking;
pub mod reduce;
pub mod search;
pub mod singleresult;
pub mod sorted_vec;
pub mod utils;
