//! The capability shared by every dice expression: produce one sampled
//! outcome, report the bound that sizes its outcome histogram, and render a
//! canonical textual form.

use vstd::prelude::*;

verus! {

/// The histogram length an expression needs: its outcome bound, clamped to
/// one so that an empty expression (whose only outcome is zero) still has a
/// slot for that outcome.
pub open spec fn max1(m: int) -> int {
    if m == 0 {
        1
    } else {
        m
    }
}

/// A rollable dice expression.
///
/// The simulation engine relies on exactly this contract: every sampled
/// outcome of a well-formed expression lands strictly below `max1` of its
/// outcome bound, so a histogram of that length can never be indexed out of
/// range.
pub trait Rollable {
    /// Well-formedness: the structural invariant a value must satisfy before
    /// it may be rolled (established by every constructor and parser).
    spec fn wf(&self) -> bool;

    /// The outcome bound: the sum of the face counts involved. Outcomes of
    /// a well-formed expression are zero when the bound is zero, and
    /// strictly below it otherwise.
    spec fn max_spec(&self) -> int;

    /// The canonical textual form.
    spec fn describe(&self) -> Seq<char>;

    /// Draws one sampled outcome, using a source of randomness private to
    /// the call.
    fn roll(&self, verbose: bool) -> (r: usize)
        requires
            self.wf(),
        ensures
            self.max_spec() == 0 ==> r == 0,
            self.max_spec() > 0 ==> r < self.max_spec(),
    ;

    /// Reports the outcome bound.
    fn max(&self) -> (r: usize)
        requires
            self.wf(),
        ensures
            r == self.max_spec(),
    ;

    /// Renders the canonical textual form.
    fn to_string(&self) -> (r: String)
        ensures
            r@ == self.describe(),
    ;
}

} // verus!
