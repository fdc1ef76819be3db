use vstd::prelude::*;

verus! {

/// An alternative name for a combine rule over an aggregate type; kept as a
/// separate capability so a type can carry two distinct recomputation rules.
pub trait Recalculate<V, E>: Sized {
    /// The rule as a mathematical function over values.
    spec fn spec_recalculate(self, vertex: V, edge: E) -> Self;

    /// Combine this aggregate with a slot weight and a transition weight.
    fn recalculate(&self, vertex: &V, edge: &E) -> (r: Self)
        ensures
            r == self.spec_recalculate(*vertex, *edge),
    ;
}

} // verus!
