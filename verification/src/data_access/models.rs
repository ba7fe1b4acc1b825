//! The rows of the `key_values` table.

use vstd::prelude::*;

verus! {

/// A stored row: its id, its key and its value.
pub struct KeyValue {
    pub id: Option<i32>,
    pub key: String,
    pub value: String,
}

/// A row to be written: the value for a key.
pub struct NewKeyValue {
    pub key: String,
    pub value: String,
}

} // verus!
