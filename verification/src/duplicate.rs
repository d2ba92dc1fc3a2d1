//! Copying values whose contents are known by their view.

use vstd::prelude::*;

verus! {

/// A type whose values can be copied without a change to what they hold.
pub trait Duplicate: View + Sized {
    fn duplicate(&self) -> (r: Self)
        ensures
            r@ == self@,
    ;
}

impl Duplicate for String {
    fn duplicate(&self) -> (r: Self) {
        self.clone()
    }
}

impl Duplicate for () {
    fn duplicate(&self) -> (r: Self) {
    }
}

impl Duplicate for Vec<u8> {
    fn duplicate(&self) -> (r: Self) {
        let r = self.clone();
        assert(r@ =~= self@);
        r
    }
}

} // verus!
