//! Radix sorts for slices of values that project onto unsigned integer
//! keys: American flag, MSD, LSD, diverting LSD, Ska and Thiel sort,
//! counting sort, an MSD sort of strings, and a dispatcher that picks among
//! them by the length of the slice and the width of its keys.
//!
//! Every sort is stated and proved against one model: `radixable` says what
//! an element must offer, `digits` and `buckets` what a digit and a bucket
//! are, `order` what sorted means and how the passes add up to it, and
//! `laws` what follows for every sort.

pub mod algo;
pub mod buckets;
pub mod digits;
pub mod laws;
pub mod order;
pub mod radixable;
pub mod sorts;

pub use radixable::{Float32, Float64, InvalidInput, Radixable, SortError};
pub use sorts::voracious_sort::RadixSort;
