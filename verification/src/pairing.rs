//! Grouping a list into consecutive pairs.
use vstd::prelude::*;
use itertools::Itertools;

verus! {

/// The consecutive pairs of `xs`: the first with the second item, the third
/// with the fourth, and so on. A last item without a partner is left out.
pub open spec fn paired(xs: Seq<int>) -> Seq<(int, int)> {
    Seq::new(xs.len() / 2, |j: int| (xs[2 * j], xs[2 * j + 1]))
}

/// Calls `Itertools::tuples` on the items of `xs`, asking for tuples of two.
/// Trusted: the adaptor yields the items two by two in their order, pairs
/// never overlap, and an item left over at the end is not yielded.
#[verifier::external_body]
pub(crate) fn pair_up(xs: &Vec<i32>) -> (pairs: Vec<(i32, i32)>)
    ensures
        pairs@.len() == xs@.len() / 2,
        forall|j: int|
            0 <= j < pairs@.len() ==> (#[trigger] pairs@[j]) == (xs@[2 * j], xs@[2 * j + 1]),
{
    xs.iter().copied().tuples().collect()
}

} // verus!
