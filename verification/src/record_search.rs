//! Picking out CSV records by an exact field value.

use vstd::prelude::*;

use crate::text::views;

verus! {

/// Whether one of the record's fields is exactly `query`: the records for
/// which this holds are the ones the search passes through.
pub fn record_matches(fields: &Vec<String>, query: &str) -> (r: bool)
    ensures
        r == views(fields@).contains(query@),
{
    let wanted = String::from_str(query);
    let mut i: usize = 0;
    while i < fields.len()
        invariant
            i <= fields.len(),
            wanted@ == query@,
            forall|j: int| 0 <= j < i ==> fields@[j]@ != query@,
        decreases fields.len() - i,
    {
        if fields[i] == wanted {
            assert(views(fields@)[i as int] == query@);
            return true;
        }
        i = i + 1;
    }
    proof {
        if views(fields@).contains(query@) {
            let j = choose|j: int| 0 <= j < views(fields@).len() && views(fields@)[j] == query@;
            assert(fields@[j]@ == query@);
        }
    }
    false
}

} // verus!
