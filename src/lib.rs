//! A set of full values that are identified, deduplicated and looked up by a
//! key projected out of each value.

mod iter;
mod laws;
mod partial;
mod set;

pub use iter::{
    key_absent, lemma_missing_from_lists, missing_from, Difference, Drain, IntoIter, Iter,
};
pub use laws::{
    lemma_difference_of_subset, lemma_drain_yields_each_once, lemma_insert_keeps_first,
    lemma_insert_then_take, lemma_replace_keeps_last,
};
pub use partial::{Partial, ToPartial};
pub use set::{add_keep_first, add_keep_last, lists, PartialSet};
