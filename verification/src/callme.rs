use vstd::prelude::*;

verus! {

/// Invoke the given closure once.
pub fn quox<F: Fn() -> ()>(f: F)
    requires
        f.requires(()),
    ensures
        f.ensures((), ()),
{
    (f)()
}

} // verus!
