use vstd::prelude::*;

verus! {

/// The largest element of a non-empty slice of machine integers: an
/// element that no other element exceeds.
pub fn largest_i32(arr: &[i32]) -> (r: i32)
    requires
        arr@.len() > 0,
    ensures
        exists|i: int| 0 <= i < arr@.len() && r == arr@[i],
        forall|i: int| 0 <= i < arr@.len() ==> arr@[i] <= r,
{
    let mut res = arr[0];
    let mut idx: usize = 1;
    while idx < arr.len()
        invariant
            1 <= idx <= arr@.len(),
            exists|i: int| 0 <= i < arr@.len() && res == arr@[i],
            forall|i: int| 0 <= i < idx ==> arr@[i] <= res,
        decreases arr@.len() - idx,
    {
        let val = arr[idx];
        if val > res {
            res = val;
        }
        idx += 1;
    }
    res
}

/// The fold of `>` over a non-empty slice, by reference.  With a
/// partial order nothing more than membership is promised of the
/// result.
pub fn largest_reference<T: PartialOrd>(arr: &[T]) -> (r: &T)
    requires
        arr@.len() > 0,
    ensures
        exists|i: int| 0 <= i < arr@.len() && *r == arr@[i],
{
    let mut res = &arr[0];
    let mut idx: usize = 1;
    while idx < arr.len()
        invariant
            1 <= idx <= arr@.len(),
            exists|i: int| 0 <= i < arr@.len() && *res == arr@[i],
        decreases arr@.len() - idx,
    {
        let val = &arr[idx];
        if *val > *res {
            res = val;
        }
        idx += 1;
    }
    res
}

/// The fold of `>` over a non-empty slice, by value.  With a partial
/// order nothing more than membership is promised of the result.
pub fn largest<T: PartialOrd + Copy>(arr: &[T]) -> (r: T)
    requires
        arr@.len() > 0,
    ensures
        exists|i: int| 0 <= i < arr@.len() && r == arr@[i],
{
    let mut res = arr[0];
    let mut idx: usize = 1;
    while idx < arr.len()
        invariant
            1 <= idx <= arr@.len(),
            exists|i: int| 0 <= i < arr@.len() && res == arr@[i],
        decreases arr@.len() - idx,
    {
        let val = arr[idx];
        if val > res {
            res = val;
        }
        idx += 1;
    }
    res
}

} // verus!
