//! Taking the only element out of a collection.
use itertools::Itertools;
use vstd::prelude::*;

verus! {

/// The element of a sequence that has exactly one.
pub open spec fn only_item<X>(items: Seq<X>) -> Option<X> {
    if items.len() == 1 {
        Some(items[0])
    } else {
        None
    }
}

/// Calls `Itertools::exactly_one` on the items: the item when there is
/// exactly one, `None` when there are none or several.
#[verifier::external_body]
pub(crate) fn exactly_one<X>(items: Vec<X>) -> (r: Option<X>)
    ensures
        r == only_item(items@),
{
    items.into_iter().exactly_one().ok()
}

} // verus!
