use vstd::prelude::*;

verus! {

/// The combine rule: folds one slot weight and one transition weight into an
/// aggregate, producing the aggregate of the next node on a path.
pub trait Recalc<V, E>: Sized {
    /// The combine rule as a mathematical function over values.
    spec fn spec_recalc(self, vertex: V, edge: E) -> Self;

    /// Combine this aggregate with the weight of the slot it sits on and the
    /// weight of the transition taken out of that slot.
    fn recalc(&self, vertex: &V, edge: &E) -> (r: Self)
        ensures
            r == self.spec_recalc(*vertex, *edge),
    ;
}

/// A saturating additive cost algebra on plain integers: combining adds the
/// slot weight and the transition weight, clamping at the representable range.
impl Recalc<i64, i64> for i64 {
    open spec fn spec_recalc(self, vertex: i64, edge: i64) -> i64 {
        crate::recalc::sat_i64(self + vertex + edge)
    }

    fn recalc(&self, vertex: &i64, edge: &i64) -> (r: i64) {
        let s: i128 = (*self as i128) + (*vertex as i128) + (*edge as i128);
        if s > i64::MAX as i128 {
            i64::MAX
        } else if s < i64::MIN as i128 {
            i64::MIN
        } else {
            s as i64
        }
    }
}

/// Clamp a mathematical integer into the `i64` range.
pub open spec fn sat_i64(x: int) -> i64 {
    if x > i64::MAX {
        i64::MAX
    } else if x < i64::MIN {
        i64::MIN
    } else {
        x as i64
    }
}

} // verus!
