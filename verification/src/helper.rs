//! Overflow-checked addition, used at the interface of the code generator's
//! program counter.

use vstd::prelude::*;

verus! {

/// A type whose values add with an explicit overflow check.
pub trait SafeAdd: Sized {
    /// The mathematical sum, or nothing where it does not fit the type.
    spec fn add_spec(self, other: Self) -> Option<Self>;

    /// Returns the sum, or `None` when it would not fit.
    fn safe_add(&self, other: &Self) -> (r: Option<Self>)
        ensures
            r == self.add_spec(*other),
    ;
}

impl SafeAdd for usize {
    open spec fn add_spec(self, other: usize) -> Option<usize> {
        if self + other <= usize::MAX {
            Some((self + other) as usize)
        } else {
            None
        }
    }

    fn safe_add(&self, other: &usize) -> (r: Option<usize>) {
        if *self <= usize::MAX - *other {
            Some(*self + *other)
        } else {
            None
        }
    }
}

/// Adds `additive` into `dst` in place; when the sum does not fit, leaves
/// `dst` unchanged and returns the error that the closure supplies.
pub fn safe_add<T: SafeAdd, E, F: Fn() -> E>(dst: &mut T, additive: &T, f: F) -> (r: Result<
    (),
    E,
>)
    requires
        f.requires(()),
    ensures
        old(dst).add_spec(*additive) matches Some(v) ==> r is Ok && *final(dst) == v,
        old(dst).add_spec(*additive) is None ==> r is Err && *final(dst) == *old(dst),
        r matches Err(e) ==> f.ensures((), e),
{
    match dst.safe_add(additive) {
        Some(n) => {
            *dst = n;
            Ok(())
        },
        None => Err(f()),
    }
}

} // verus!
