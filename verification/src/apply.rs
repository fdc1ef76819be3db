use vstd::prelude::*;

verus! {

/// The diff-application capability of a weight type: how a caller-supplied
/// diff value changes a stored weight.
pub trait Apply<D>: Sized {
    /// The application as a mathematical function from old weight and diff to
    /// new weight.
    spec fn spec_apply(self, diff: D) -> Self;

    /// Apply `diff` to this weight in place.
    fn apply(&mut self, diff: D)
        ensures
            *final(self) == (*old(self)).spec_apply(diff),
    ;
}

/// Every type accepts a value of itself as a diff, meaning full replacement.
impl<T> Apply<T> for T {
    open spec fn spec_apply(self, diff: T) -> T {
        diff
    }

    fn apply(&mut self, diff: T) {
        *self = diff;
    }
}

} // verus!
