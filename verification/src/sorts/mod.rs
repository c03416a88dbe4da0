//! The sorts and what they share.

pub mod american_flag_sort;
pub mod boolean_sort;
pub mod comparative_sort;
pub mod counting_sort;
pub mod dlsd_sort;
pub mod guard;
pub mod lsd_sort;
pub mod msd_sort;
pub mod msd_string_sort;
pub mod parallel;
pub mod ska_sort;
pub mod thiel_sort;
pub mod utils;
pub mod voracious_sort;
