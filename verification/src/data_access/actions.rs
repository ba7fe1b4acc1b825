//! What the store's queries compute around the database: the `LIKE` pattern
//! of a prefix search and the keys of the rows it finds.

use crate::data_access::models::KeyValue;
use vstd::prelude::*;

verus! {

/// The SQL `LIKE` pattern that finds the keys starting with `prefix`.
pub fn prefix_pattern(prefix: &String) -> (res: String)
    ensures
        res@ == prefix@ + "%"@,
{
    let mut res = prefix.clone();
    res.append("%");
    res
}

/// The keys of the rows, in the order of the rows.
pub fn keys_of(entries: Vec<KeyValue>) -> (res: Vec<String>)
    ensures
        res@.len() == entries@.len(),
        forall|i: int| 0 <= i < entries@.len() ==> #[trigger] res@[i]@ == entries@[i].key@,
{
    let mut res: Vec<String> = Vec::new();
    let mut i: usize = 0;
    while i < entries.len()
        invariant
            i <= entries@.len(),
            res@.len() == i,
            forall|k: int| 0 <= k < i ==> #[trigger] res@[k]@ == entries@[k].key@,
        decreases entries@.len() - i,
    {
        res.push(entries[i].key.clone());
        i = i + 1;
    }
    res
}

/// Whether a delete removed anything, from the number of rows it removed.
pub fn deleted_any(num_deleted: usize) -> (res: bool)
    ensures
        res == (num_deleted > 0),
{
    num_deleted > 0
}

} // verus!
