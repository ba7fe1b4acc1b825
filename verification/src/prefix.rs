//! Prefixes of strings, counted in characters.

use vstd::prelude::*;

verus! {

/// Whether `key` starts with `prefix`.
pub fn starts_with(key: &str, prefix: &str) -> (res: bool)
    ensures
        res == prefix@.is_prefix_of(key@),
{
    let key_len = key.unicode_len();
    let prefix_len = prefix.unicode_len();
    if prefix_len > key_len {
        return false;
    }
    let mut i: usize = 0;
    while i < prefix_len
        invariant
            i <= prefix_len <= key_len,
            key_len == key@.len(),
            prefix_len == prefix@.len(),
            forall|j: int| 0 <= j < i ==> #[trigger] prefix@[j] == key@[j],
        decreases prefix_len - i,
    {
        if prefix.get_char(i) != key.get_char(i) {
            return false;
        }
        i = i + 1;
    }
    assert(prefix@ =~= key@.subrange(0, prefix@.len() as int));
    true
}

} // verus!
