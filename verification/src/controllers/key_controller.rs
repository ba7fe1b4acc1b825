//! The key routes: writing a key from a `key=value` body, and listing keys.

use crate::data_access::models::NewKeyValue;
use crate::prefix::starts_with;
use crate::url_codec::{
    decode_component, encode_component, lemma_encoding_chars,
    lemma_url_decode_inverts_encode, lemma_url_decode_keeps_plain_text, url_decode, url_encode,
};
use vstd::prelude::*;

verus! {

/// The `{key}={value}` path of a write.
pub struct KeyValue {
    pub key: String,
    pub value: String,
}

/// The `{key}` path of a read or a delete.
pub struct KeyPath {
    pub key: String,
}

/// The query of a key listing: the prefix, and whether to percent-encode the keys.
pub struct KeyList {
    pub prefix: String,
    pub encode: Option<bool>,
}

/// Why a `key=value` body cannot be written.
pub enum CreateKeyError {
    /// The body holds no `=`.
    MissingSeparator,
    /// The key does not percent-decode to UTF-8.
    UndecodableKey,
    /// The value does not percent-decode to UTF-8.
    UndecodableValue,
}

/// The position of the first `=` of `s` at or after `from`, or the length of `s`.
pub open spec fn next_separator(s: Seq<char>, from: int) -> int
    decreases s.len() - from,
{
    if from >= s.len() {
        s.len() as int
    } else if s[from] == '=' {
        from
    } else {
        next_separator(s, from + 1)
    }
}

/// A body split at `=`: the part before the first `=` is the key, the part
/// between the first and the second `=` (or the end) the value; `None` where
/// the body holds no `=`.
pub open spec fn key_value_parts(body: Seq<char>) -> Option<(Seq<char>, Seq<char>)> {
    let i = next_separator(body, 0);
    if i >= body.len() {
        None
    } else {
        Some((body.subrange(0, i), body.subrange(i + 1, next_separator(body, i + 1))))
    }
}

proof fn lemma_next_separator_bounds(s: Seq<char>, from: int)
    requires
        0 <= from,
    ensures
        from <= next_separator(s, from) <= s.len() || (from > s.len() && next_separator(s, from) == s.len()),
    decreases s.len() - from,
{
    if from < s.len() && s[from] != '=' {
        lemma_next_separator_bounds(s, from + 1);
    }
}

/// The position of the first `=` of `s` at or after `from`, or `len`, the length of `s`.
fn find_separator(s: &str, len: usize, from: usize) -> (res: usize)
    requires
        len == s@.len(),
        from <= len,
    ensures
        res == next_separator(s@, from as int),
        from <= res <= len,
{
    let mut i = from;
    while i < len && s.get_char(i) != '='
        invariant
            from <= i <= len,
            len == s@.len(),
            next_separator(s@, i as int) == next_separator(s@, from as int),
        decreases len - i,
    {
        i = i + 1;
    }
    proof {
        lemma_next_separator_bounds(s@, i as int);
    }
    i
}

/// Splits a `key=value` body: the key before the first `=`, the value
/// between the first and the second `=` (or the end); `None` without `=`.
pub fn split_key_value(body: &str) -> (res: Option<(String, String)>)
    ensures
        match key_value_parts(body@) {
            None => res is None,
            Some((key, value)) => res matches Some((k, v)) && k@ == key && v@ == value,
        },
{
    let len = body.unicode_len();
    let first = find_separator(body, len, 0);
    if first >= len {
        return None;
    }
    let second = find_separator(body, len, first + 1);
    let key = body.substring_char(0, first).to_owned();
    let value = body.substring_char(first + 1, second).to_owned();
    Some((key, value))
}

/// What the body of a write asks for, percent-decoded: the row to write, or
/// why there is none.
pub open spec fn requested_write(body: Seq<char>) -> Result<(Seq<char>, Seq<char>), CreateKeyError> {
    match key_value_parts(body) {
        None => Err(CreateKeyError::MissingSeparator),
        Some((key, value)) => match url_decode(key) {
            None => Err(CreateKeyError::UndecodableKey),
            Some(k) => match url_decode(value) {
                None => Err(CreateKeyError::UndecodableValue),
                Some(v) => Ok((k, v)),
            },
        },
    }
}

/// Reads a `key=value` body: splits it at `=` and percent-decodes both parts.
pub fn create_key(body: &str) -> (res: Result<NewKeyValue, CreateKeyError>)
    ensures
        match requested_write(body@) {
            Ok((key, value)) => res matches Ok(row) && row.key@ == key && row.value@ == value,
            Err(e) => res == Err::<NewKeyValue, CreateKeyError>(e),
        },
{
    match split_key_value(body) {
        None => Err(CreateKeyError::MissingSeparator),
        Some((key, value)) => match decode_component(key.as_str()) {
            None => Err(CreateKeyError::UndecodableKey),
            Some(decoded_key) => match decode_component(value.as_str()) {
                None => Err(CreateKeyError::UndecodableValue),
                Some(decoded_value) => Ok(NewKeyValue { key: decoded_key, value: decoded_value }),
            },
        },
    }
}

/// Lines joined with `\n` between them.
pub open spec fn join_lines(lines: Seq<Seq<char>>) -> Seq<char>
    decreases lines.len(),
{
    if lines.len() == 0 {
        Seq::empty()
    } else if lines.len() == 1 {
        lines[0]
    } else {
        join_lines(lines.drop_last()) + "\n"@ + lines.last()
    }
}

/// A key as the listing shows it: percent-encoded or as it is.
pub open spec fn shown_key(key: Seq<char>, encode: bool) -> Seq<char> {
    if encode {
        url_encode(key)
    } else {
        key
    }
}

/// Whether a listing asks for encoded keys: only `encode=true` does.
pub open spec fn wants_encoding(params: KeyList) -> bool {
    params.encode == Some(true)
}

/// Joins lines with `\n` between them.
fn join_with_newlines(lines: &Vec<String>) -> (res: String)
    ensures
        res@ == join_lines(lines@.map_values(|line: String| line@)),
{
    let ghost views = lines@.map_values(|line: String| line@);
    let mut res = String::new();
    let mut i: usize = 0;
    while i < lines.len()
        invariant
            i <= lines@.len(),
            views == lines@.map_values(|line: String| line@),
            res@ == join_lines(views.take(i as int)),
        decreases lines@.len() - i,
    {
        proof {
            assert(views.take(i + 1int).drop_last() =~= views.take(i as int));
        }
        if i > 0 {
            res.append("\n");
        } else {
            proof {
                assert(join_lines(views.take(0)) =~= Seq::<char>::empty());
            }
        }
        res.append(lines[i].as_str());
        i = i + 1;
    }
    proof {
        assert(views.take(lines@.len() as int) =~= views);
    }
    res
}

/// The stored keys that start with `prefix`, in stored order.
pub open spec fn matching_keys(stored: Seq<Seq<char>>, prefix: Seq<char>) -> Seq<Seq<char>> {
    stored.filter(|key: Seq<char>| prefix.is_prefix_of(key))
}

/// The body of a listing of `stored` for `params`: the keys that start with
/// the prefix, in stored order, each shown as the query asks, one per line.
pub open spec fn listing(stored: Seq<Seq<char>>, params: KeyList) -> Seq<char> {
    join_lines(matching_keys(stored, params.prefix@).map_values(|key: Seq<char>| shown_key(key, wants_encoding(params))))
}

/// The views of a vector of strings.
pub open spec fn string_views(v: Seq<String>) -> Seq<Seq<char>> {
    v.map_values(|s: String| s@)
}

/// The body of a key listing: the stored keys that start with the query's
/// prefix, in stored order, percent-encoded when the query says
/// `encode=true`, one per line.
pub fn list_keys(params: &KeyList, stored: &Vec<String>) -> (res: String)
    ensures
        res@ == listing(string_views(stored@), *params),
{
    let encode = match params.encode {
        Some(flag) => flag,
        None => false,
    };
    let ghost keys = string_views(stored@);
    let ghost pred = |key: Seq<char>| params.prefix@.is_prefix_of(key);
    let ghost show = |key: Seq<char>| shown_key(key, wants_encoding(*params));
    let mut shown: Vec<String> = Vec::new();
    let mut i: usize = 0;
    while i < stored.len()
        invariant
            i <= stored@.len(),
            keys == string_views(stored@),
            encode == wants_encoding(*params),
            pred == (|key: Seq<char>| params.prefix@.is_prefix_of(key)),
            show == (|key: Seq<char>| shown_key(key, wants_encoding(*params))),
            string_views(shown@) == keys.take(i as int).filter(pred).map_values(show),
        decreases stored@.len() - i,
    {
        let key = stored[i].as_str();
        proof {
            let t = keys.take(i + 1int);
            assert(t.drop_last() =~= keys.take(i as int));
            assert(t.last() == key@);
            reveal_with_fuel(Seq::filter, 1);
        }
        let ghost before = shown@;
        if starts_with(key, params.prefix.as_str()) {
            if encode {
                shown.push(encode_component(key));
            } else {
                shown.push(key.to_owned());
            }
            proof {
                assert(string_views(shown@) =~= string_views(before).push(show(key@)));
                assert(keys.take(i + 1int).filter(pred) == keys.take(i as int).filter(pred).push(key@));
                assert(keys.take(i + 1int).filter(pred).map_values(show) =~= keys.take(i as int).filter(pred).map_values(show).push(show(key@)));
            }
        }
        i = i + 1;
    }
    proof {
        assert(keys.take(stored@.len() as int) =~= keys);
    }
    join_with_newlines(&shown)
}

/// The lines of `s`: the stretches between its line breaks, so one more
/// line than `s` holds `\n`s (an empty `s` is one empty line).
pub open spec fn split_lines(s: Seq<char>) -> Seq<Seq<char>>
    decreases s.len(),
{
    if s.len() == 0 {
        seq![Seq::empty()]
    } else {
        let lines = split_lines(s.drop_last());
        if s.last() == '\n' {
            lines.push(Seq::empty())
        } else {
            lines.update(lines.len() - 1, lines.last().push(s.last()))
        }
    }
}

/// Whether `s` holds no line break.
pub open spec fn has_no_line_break(s: Seq<char>) -> bool {
    forall|i: int| 0 <= i < s.len() ==> #[trigger] s[i] != '\n'
}

proof fn lemma_split_lines_nonempty(s: Seq<char>)
    ensures
        split_lines(s).len() >= 1,
    decreases s.len(),
{
    if s.len() > 0 {
        lemma_split_lines_nonempty(s.drop_last());
    }
}

/// Text without a line break extends the last line.
proof fn lemma_split_lines_extend(a: Seq<char>, b: Seq<char>)
    requires
        has_no_line_break(b),
    ensures
        split_lines(a + b) == split_lines(a).update(split_lines(a).len() - 1, split_lines(a).last() + b),
    decreases b.len(),
{
    lemma_split_lines_nonempty(a);
    if b.len() == 0 {
        assert(a + b =~= a);
        assert(split_lines(a).last() + b =~= split_lines(a).last());
        assert(split_lines(a).update(split_lines(a).len() - 1, split_lines(a).last()) =~= split_lines(a));
    } else {
        let b0 = b.drop_last();
        lemma_split_lines_extend(a, b0);
        assert((a + b).drop_last() =~= a + b0);
        assert((a + b).last() == b.last());
        assert(split_lines(a).last() + b =~= (split_lines(a).last() + b0).push(b.last()));
        let l0 = split_lines(a + b0);
        assert(l0.update(l0.len() - 1, l0.last().push(b.last())) =~= split_lines(a).update(
            split_lines(a).len() - 1,
            split_lines(a).last() + b,
        ));
    }
}

/// Splitting undoes joining, for at least one line and lines without line breaks.
proof fn lemma_split_lines_inverts_join(lines: Seq<Seq<char>>)
    requires
        lines.len() >= 1,
        forall|k: int| 0 <= k < lines.len() ==> has_no_line_break(#[trigger] lines[k]),
    ensures
        split_lines(join_lines(lines)) == lines,
    decreases lines.len(),
{
    reveal_strlit("\n");
    if lines.len() == 1 {
        lemma_split_lines_extend(Seq::empty(), lines[0]);
        assert(Seq::<char>::empty() + lines[0] =~= lines[0]);
        assert(split_lines(Seq::<char>::empty()).update(0, Seq::<char>::empty() + lines[0]) =~= lines);
    } else {
        let init = lines.drop_last();
        lemma_split_lines_inverts_join(init);
        let head = join_lines(init) + "\n"@;
        assert(head.drop_last() =~= join_lines(init));
        assert(split_lines(head) == init.push(Seq::empty()));
        lemma_split_lines_extend(head, lines.last());
        assert(Seq::<char>::empty() + lines.last() =~= lines.last());
        assert(init.push(Seq::empty()).update(init.len() as int, lines.last()) =~= lines);
    }
}

/// A client that splits a plain listing at its line breaks gets back the
/// stored keys that start with the prefix, in stored order, where none of
/// them holds a line break and there is at least one.
pub proof fn lemma_plain_listing_splits_to_matching_keys(stored: Seq<Seq<char>>, params: KeyList)
    requires
        !wants_encoding(params),
        matching_keys(stored, params.prefix@).len() >= 1,
        forall|k: int| 0 <= k < matching_keys(stored, params.prefix@).len()
            ==> has_no_line_break(#[trigger] matching_keys(stored, params.prefix@)[k]),
    ensures
        split_lines(listing(stored, params)) == matching_keys(stored, params.prefix@),
{
    let keys = matching_keys(stored, params.prefix@);
    assert(keys.map_values(|key: Seq<char>| shown_key(key, wants_encoding(params))) =~= keys);
    lemma_split_lines_inverts_join(keys);
}

/// A client that splits an encoded listing at its line breaks and decodes
/// each line gets back the stored keys that start with the prefix, in stored
/// order, where there is at least one.
pub proof fn lemma_encoded_listing_decodes_to_matching_keys(stored: Seq<Seq<char>>, params: KeyList)
    requires
        wants_encoding(params),
        matching_keys(stored, params.prefix@).len() >= 1,
    ensures
        split_lines(listing(stored, params)).map_values(|line: Seq<char>| url_decode(line))
            == matching_keys(stored, params.prefix@).map_values(|key: Seq<char>| Some(key)),
{
    let keys = matching_keys(stored, params.prefix@);
    let lines = keys.map_values(|key: Seq<char>| shown_key(key, wants_encoding(params)));
    assert forall|k: int| 0 <= k < lines.len() implies has_no_line_break(#[trigger] lines[k]) by {
        lemma_encoding_chars(vstd::utf8::encode_utf8(keys[k]));
    }
    lemma_split_lines_inverts_join(lines);
    assert forall|k: int| 0 <= k < lines.len() implies url_decode(#[trigger] lines[k]) == Some(keys[k]) by {
        lemma_url_decode_inverts_encode(keys[k]);
    }
    assert(lines.map_values(|line: Seq<char>| url_decode(line)) =~= keys.map_values(|key: Seq<char>| Some(key)));
}

/// A listing under a longer prefix finds no key that a listing under a
/// prefix of that prefix misses.
pub proof fn lemma_matching_keys_shrink_with_prefix(stored: Seq<Seq<char>>, shorter: Seq<char>, longer: Seq<char>)
    requires
        shorter.is_prefix_of(longer),
    ensures
        matching_keys(stored, longer).to_set().subset_of(matching_keys(stored, shorter).to_set()),
{
    broadcast use vstd::seq_lib::group_filter_ensures;
    let pl = |key: Seq<char>| longer.is_prefix_of(key);
    let ps = |key: Seq<char>| shorter.is_prefix_of(key);
    assert forall|key: Seq<char>| matching_keys(stored, longer).to_set().contains(key)
        implies matching_keys(stored, shorter).to_set().contains(key) by {
        let found = stored.filter(pl);
        assert(found.contains(key));
        let j = choose|j: int| 0 <= j < found.len() && found[j] == key;
        assert(pl(found[j]));
        stored.lemma_filter_contains_rev(pl, key);
        let i = choose|i: int| 0 <= i < stored.len() && stored[i] == key;
        assert(shorter =~= key.subrange(0, shorter.len() as int)) by {
            assert forall|k: int| 0 <= k < shorter.len() implies shorter[k] == key[k] by {
                assert(shorter[k] == longer[k]);
                assert(longer[k] == key[k]);
            }
        }
        stored.lemma_filter_contains(ps, i);
    }
}

/// The answer to a request on one key.
pub enum KeyReply {
    /// `200 OK` with the key's value as the body.
    Found(String),
    /// `204 No Content`: the key was deleted.
    Deleted,
    /// `404 Not Found`: no such key is stored.
    NotFound,
}

impl KeyReply {
    /// The HTTP status of the answer.
    pub fn status(&self) -> (res: u16)
        ensures
            res == match self {
                KeyReply::Found(_) => 200u16,
                KeyReply::Deleted => 204u16,
                KeyReply::NotFound => 404u16,
            },
    {
        match self {
            KeyReply::Found(_) => 200,
            KeyReply::Deleted => 204,
            KeyReply::NotFound => 404,
        }
    }
}

/// The answer to a read of a key, from the value stored under it, if any.
pub fn reply_to_read(found: Option<String>) -> (res: KeyReply)
    ensures
        match found {
            Some(value) => res == KeyReply::Found(value),
            None => res == KeyReply::NotFound,
        },
{
    match found {
        Some(value) => KeyReply::Found(value),
        None => KeyReply::NotFound,
    }
}

/// The answer to a delete of a key, from whether a row was removed.
pub fn reply_to_delete(deleted: bool) -> (res: KeyReply)
    ensures
        deleted ==> res == KeyReply::Deleted,
        !deleted ==> res == KeyReply::NotFound,
{
    if deleted {
        KeyReply::Deleted
    } else {
        KeyReply::NotFound
    }
}

/// `next_separator` passes over a stretch without `=`.
proof fn lemma_next_separator_skips(s: Seq<char>, from: int, to: int)
    requires
        0 <= from <= to <= s.len(),
        forall|j: int| from <= j < to ==> s[j] != '=',
    ensures
        next_separator(s, from) == next_separator(s, to),
    decreases to - from,
{
    if from < to {
        lemma_next_separator_skips(s, from + 1, to);
    }
}

/// A client that percent-encodes its key and its value and sends them as
/// `key=value` gets exactly that key and that value written.
pub proof fn lemma_encoded_write_round_trips(key: Seq<char>, value: Seq<char>)
    ensures
        requested_write(url_encode(key) + "="@ + url_encode(value)) == Ok::<(Seq<char>, Seq<char>), CreateKeyError>((key, value)),
{
    reveal_strlit("=");
    let ek = url_encode(key);
    let ev = url_encode(value);
    let body = ek + "="@ + ev;
    lemma_encoding_chars(vstd::utf8::encode_utf8(key));
    lemma_encoding_chars(vstd::utf8::encode_utf8(value));
    assert forall|j: int| 0 <= j < ek.len() implies body[j] != '=' by {
        assert(body[j] == ek[j]);
    }
    assert forall|j: int| ek.len() + 1 <= j < body.len() implies body[j] != '=' by {
        assert(body[j] == ev[j - ek.len() - 1]);
    }
    assert(body[ek.len() as int] == '=');
    lemma_next_separator_skips(body, 0, ek.len() as int);
    lemma_next_separator_skips(body, ek.len() + 1int, body.len() as int);
    assert(body.subrange(0, ek.len() as int) =~= ek);
    assert(body.subrange(ek.len() + 1int, body.len() as int) =~= ev);
    lemma_url_decode_inverts_encode(key);
    lemma_url_decode_inverts_encode(value);
}

/// Whether `s` holds no `=`.
pub open spec fn has_no_separator(s: Seq<char>) -> bool {
    forall|i: int| 0 <= i < s.len() ==> #[trigger] s[i] != '='
}

/// A write body is the key, `=`, the value, and then nothing or a further
/// `=` with anything after it. Whatever characters the two parts hold, the
/// write is refused only for a part that does not percent-decode to UTF-8,
/// the key first; otherwise exactly the decoded key and value are written.
pub proof fn lemma_write_is_split_then_decoded(key: Seq<char>, value: Seq<char>, tail: Seq<char>)
    requires
        has_no_separator(key),
        has_no_separator(value),
        tail.len() == 0 || tail[0] == '=',
    ensures
        url_decode(key) is None ==> requested_write(key + "="@ + value + tail)
            == Err::<(Seq<char>, Seq<char>), CreateKeyError>(CreateKeyError::UndecodableKey),
        url_decode(key) is Some && url_decode(value) is None ==> requested_write(key + "="@ + value + tail)
            == Err::<(Seq<char>, Seq<char>), CreateKeyError>(CreateKeyError::UndecodableValue),
        url_decode(key) is Some && url_decode(value) is Some ==> requested_write(key + "="@ + value + tail)
            == Ok::<(Seq<char>, Seq<char>), CreateKeyError>((url_decode(key)->0, url_decode(value)->0)),
{
    reveal_strlit("=");
    let body = key + "="@ + value + tail;
    let v_end: int = key.len() + 1int + value.len();
    assert forall|j: int| 0 <= j < key.len() implies body[j] != '=' by {
        assert(body[j] == key[j]);
    }
    assert forall|j: int| key.len() + 1 <= j < v_end implies body[j] != '=' by {
        assert(body[j] == value[j - key.len() - 1]);
    }
    assert(body[key.len() as int] == '=');
    lemma_next_separator_skips(body, 0, key.len() as int);
    lemma_next_separator_skips(body, key.len() + 1int, v_end);
    if tail.len() > 0 {
        assert(body[v_end] == tail[0]);
    }
    assert(next_separator(body, v_end) == v_end);
    assert(body.subrange(0, key.len() as int) =~= key);
    assert(body.subrange(key.len() + 1int, v_end) =~= value);
}

/// A body whose key and value hold neither `=` nor `%` writes that key and
/// that value exactly as they are.
pub proof fn lemma_plain_write_is_kept(key: Seq<char>, value: Seq<char>)
    requires
        has_no_separator(key),
        has_no_separator(value),
        forall|i: int| 0 <= i < key.len() ==> #[trigger] key[i] != '%',
        forall|i: int| 0 <= i < value.len() ==> #[trigger] value[i] != '%',
    ensures
        requested_write(key + "="@ + value) == Ok::<(Seq<char>, Seq<char>), CreateKeyError>((key, value)),
{
    lemma_write_is_split_then_decoded(key, value, Seq::empty());
    assert(key + "="@ + value + Seq::<char>::empty() =~= key + "="@ + value);
    lemma_url_decode_keeps_plain_text(key);
    lemma_url_decode_keeps_plain_text(value);
}

} // verus!
