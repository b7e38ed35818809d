//! Natural order of texts, in which `a2` comes before `a10`.

use vstd::prelude::*;

verus! {

/// What `natord::compare` makes of two texts, as a number: -1 for `Less`, 0
/// for `Equal`, 1 for `Greater`. No more is claimed of it here than that it
/// depends on the two texts alone.
pub uninterp spec fn natural_order(left: Seq<char>, right: Seq<char>) -> i8;

/// `left` comes before `right` in natural order.
pub open spec fn naturally_before(left: Seq<char>, right: Seq<char>) -> bool {
    natural_order(left, right) == -1i8
}

/// Calls `natord::compare` and hands its result on as a number, one for
/// each of the three outcomes.
#[verifier::external_body]
pub(crate) fn natural_compare(left: &str, right: &str) -> (r: i8)
    ensures
        r == natural_order(left@, right@),
{
    match natord::compare(left, right) {
        std::cmp::Ordering::Less => -1,
        std::cmp::Ordering::Equal => 0,
        std::cmp::Ordering::Greater => 1,
    }
}

/// Tells whether `left` comes before `right` in natural order.
pub fn comes_naturally_before(left: &str, right: &str) -> (r: bool)
    ensures
        r == naturally_before(left@, right@),
{
    natural_compare(left, right) == -1i8
}

} // verus!
