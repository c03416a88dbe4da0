//! What every sort checks before it touches the slice.

use crate::order::all_valid;
use crate::radixable::{InvalidInput, Radixable, SortError, MAX_BITS};
use vstd::prelude::*;

verus! {

/// Narrowest digit that the sorts accept.
pub const MIN_RADIX: usize = 4;

/// Widest digit that the sorts accept.
pub const MAX_RADIX: usize = 8;

/// Why a sort turns an input down, if it does: the digit width first, then
/// the key width, then the elements. A slice of at most one element is
/// never turned down: there is nothing to sort.
pub open spec fn rejection<T: Radixable>(s: Seq<T>, radix: usize) -> Option<SortError> {
    if s.len() <= 1 {
        None
    } else if !(MIN_RADIX <= radix <= MAX_RADIX) {
        Some(SortError::UnsupportedRadix)
    } else if T::bits() > MAX_BITS {
        Some(SortError::UnsupportedWidth)
    } else if !all_valid(s) {
        Some(SortError::InvalidInput(InvalidInput::NaN))
    } else {
        None
    }
}

/// Whether every element may be sorted.
pub fn check_valid<T: Radixable>(arr: &[T]) -> (r: bool)
    ensures
        r == all_valid(arr@),
{
    let n: usize = arr.len();
    let mut i: usize = 0;
    while i < n
        invariant
            i <= n,
            n == arr@.len(),
            forall|j: int| 0 <= j < i ==> (#[trigger] arr@[j]).valid(),
        decreases n - i,
    {
        if !arr[i].is_valid() {
            return false;
        }
        i = i + 1;
    }
    true
}

/// The checks of `rejection`.
pub fn check_input<T: Radixable>(arr: &[T], radix: usize) -> (r: Option<SortError>)
    ensures
        r == rejection(arr@, radix),
{
    if arr.len() <= 1 {
        return None;
    }
    if radix < MIN_RADIX || radix > MAX_RADIX {
        return Some(SortError::UnsupportedRadix);
    }
    if T::type_size() > MAX_BITS {
        return Some(SortError::UnsupportedWidth);
    }
    if !check_valid(arr) {
        return Some(SortError::InvalidInput(InvalidInput::NaN));
    }
    None
}

} // verus!
