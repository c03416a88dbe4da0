//! The parts of the dispatcher that are not sorts themselves.

pub mod k_way_merge;
pub mod verge_sort_heuristic;
