//! Collections of fixed capacity.

use vstd::prelude::*;

pub mod map;

verus! {

/// `core::array::from_fn` makes an array of `N` elements by calling `f` once
/// for each index from 0 up to `N - 1`: its element at `i` is what `f`
/// returned for `i`. It makes no call that `f` does not allow.
pub assume_specification<T, const N: usize, F>[ core::array::from_fn::<T, N, F> ](
    f: F,
) -> (a: [T; N]) where F: FnMut(usize) -> T
    requires
        forall|i: usize| i < N ==> call_requires(f, (i,)),
    ensures
        forall|i: int| 0 <= i < N ==> call_ensures(f, (i as usize,), #[trigger] a@[i]),
;

} // verus!
