//! Priorities of rucksack items.

use vstd::prelude::*;

verus! {

/// The priority of an item: `a`..`z` map to 1..26, `A`..`Z` to 27..52, and
/// anything else to 0.
pub open spec fn spec_item_priority(item: char) -> int {
    let c = item as u32;
    if 97 <= c <= 122 {
        c - 96
    } else if 65 <= c <= 90 {
        c - 38
    } else {
        0
    }
}

pub fn item_priority(item: char) -> (r: u32)
    ensures
        r == spec_item_priority(item),
{
    let c = item as u32;
    if c >= 97 && c <= 122 {
        c - 96
    } else if c >= 65 && c <= 90 {
        c - 38
    } else {
        0
    }
}

} // verus!
