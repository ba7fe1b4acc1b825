use tinybase::controllers::key_controller::{reply_to_delete, reply_to_read, KeyReply};
use tinybase::controllers::key_controller::{create_key, list_keys, split_key_value, CreateKeyError, KeyList};
use tinybase::data_access::actions::{deleted_any, keys_of, prefix_pattern};
use tinybase::data_access::models::KeyValue;

fn written(body: &str) -> (String, String) {
    match create_key(body) {
        Ok(row) => (row.key, row.value),
        Err(e) => panic!("refused {:?}", matches!(e, CreateKeyError::MissingSeparator)),
    }
}

#[test]
fn split_takes_key_before_first_separator() {
    assert_eq!(split_key_value("a=b"), Some(("a".to_string(), "b".to_string())));
    assert_eq!(split_key_value("k=v=w"), Some(("k".to_string(), "v".to_string())));
    assert_eq!(split_key_value("=x"), Some(("".to_string(), "x".to_string())));
    assert_eq!(split_key_value("k="), Some(("k".to_string(), "".to_string())));
    assert_eq!(split_key_value("é=ü"), Some(("é".to_string(), "ü".to_string())));
    assert_eq!(split_key_value("novalue"), None);
    assert_eq!(split_key_value(""), None);
}

#[test]
fn create_key_decodes_both_parts() {
    assert_eq!(written("a=b"), ("a".to_string(), "b".to_string()));
    assert_eq!(written("a%20b=c%2Fd"), ("a b".to_string(), "c/d".to_string()));
    assert_eq!(written("x=%C3%A9"), ("x".to_string(), "é".to_string()));
    assert_eq!(written("%4a=1"), ("J".to_string(), "1".to_string()));
    assert_eq!(written("k=v=w"), ("k".to_string(), "v".to_string()));
}

#[test]
fn create_key_keeps_plus_and_stray_percent() {
    assert_eq!(written("plus+sign=a+b"), ("plus+sign".to_string(), "a+b".to_string()));
    assert_eq!(written("%zz=%4"), ("%zz".to_string(), "%4".to_string()));
    assert_eq!(written("%4z=%%41"), ("%4z".to_string(), "%A".to_string()));
}

#[test]
fn create_key_errors() {
    assert!(matches!(create_key("novalue"), Err(CreateKeyError::MissingSeparator)));
    assert!(matches!(create_key("%FF=x"), Err(CreateKeyError::UndecodableKey)));
    assert!(matches!(create_key("x=%C3"), Err(CreateKeyError::UndecodableValue)));
    assert!(matches!(create_key("%C3=%C3"), Err(CreateKeyError::UndecodableKey)));
}

fn strings(keys: &[&str]) -> Vec<String> {
    keys.iter().map(|k| k.to_string()).collect()
}

fn query(prefix: &str, encode: Option<bool>) -> KeyList {
    KeyList { prefix: prefix.to_string(), encode }
}

#[test]
fn list_keys_plain() {
    let stored = strings(&["a b", "b"]);
    assert_eq!(list_keys(&query("a", None), &stored), "a b");
    assert_eq!(list_keys(&query("", Some(false)), &stored), "a b\nb");
}

#[test]
fn list_keys_filters_by_prefix_with_case() {
    let stored = strings(&["a b", "A c", "ab", "xa"]);
    assert_eq!(list_keys(&query("a", Some(true)), &stored), "a%20b\nab");
    assert_eq!(list_keys(&query("a", None), &stored), "a b\nab");
    assert_eq!(list_keys(&query("A", None), &stored), "A c");
}

#[test]
fn list_keys_does_not_treat_wildcards_specially() {
    let stored = strings(&["a%b", "axb", "a_c", "abc"]);
    assert_eq!(list_keys(&query("a%", None), &stored), "a%b");
    assert_eq!(list_keys(&query("a_", None), &stored), "a_c");
}

#[test]
fn list_keys_without_match_is_empty() {
    assert_eq!(list_keys(&query("a", Some(false)), &strings(&["b"])), "");
    assert_eq!(list_keys(&query("", Some(true)), &Vec::new()), "");
    assert_eq!(list_keys(&query("abc", None), &strings(&["ab"])), "");
}

#[test]
fn list_keys_encoded() {
    let stored = strings(&["test", "test2", "{'test': 'test}", "pl a a ", "line\nbreak"]);
    assert_eq!(
        list_keys(&query("", Some(true)), &stored),
        "test\ntest2\n%7B%27test%27%3A%20%27test%7D\npl%20a%20a%20\nline%0Abreak"
    );
    assert_eq!(list_keys(&query("pl", Some(true)), &stored), "pl%20a%20a%20");
}

#[test]
fn encoded_listing_decodes_back() {
    let stored = strings(&["test", "{'test': 'test}", "pl a a ", "ключ", "x\ny"]);
    let encoded = list_keys(&query("", Some(true)), &stored);
    let lines: Vec<&str> = encoded.split('\n').collect();
    assert_eq!(lines.len(), stored.len());
    for (e, p) in lines.iter().zip(stored.iter()) {
        let body = format!("{}={}", e, e);
        assert_eq!(written(&body), (p.to_string(), p.to_string()));
    }
}

#[test]
fn prefix_pattern_appends_wildcard() {
    assert_eq!(prefix_pattern(&"messages:room:".to_string()), "messages:room:%");
    assert_eq!(prefix_pattern(&"".to_string()), "%");
}

#[test]
fn keys_of_keeps_row_order() {
    let rows = vec![
        KeyValue { id: Some(1), key: "b".to_string(), value: "1".to_string() },
        KeyValue { id: None, key: "a".to_string(), value: "2".to_string() },
    ];
    assert_eq!(keys_of(rows), vec!["b".to_string(), "a".to_string()]);
    assert_eq!(keys_of(Vec::new()), Vec::<String>::new());
}

#[test]
fn deleted_any_counts_rows() {
    assert!(!deleted_any(0));
    assert!(deleted_any(1));
    assert!(deleted_any(3));
}

#[test]
fn encoded_write_round_trips() {
    for (k, v) in [("a=b", "c=d"), ("100%", "x y+z"), ("ключ", "значение"), ("", "")] {
        let body = format!("{}={}", urlencoding::encode(k), urlencoding::encode(v));
        assert_eq!(written(&body), (k.to_string(), v.to_string()));
    }
}

#[test]
fn replies_to_reads_and_deletes() {
    let found = reply_to_read(Some("v".to_string()));
    assert!(matches!(&found, KeyReply::Found(v) if v == "v"));
    assert_eq!(found.status(), 200);
    let missing = reply_to_read(None);
    assert!(matches!(missing, KeyReply::NotFound));
    assert_eq!(missing.status(), 404);
    let deleted = reply_to_delete(true);
    assert!(matches!(deleted, KeyReply::Deleted));
    assert_eq!(deleted.status(), 204);
    assert_eq!(reply_to_delete(false).status(), 404);
}

#[test]
fn longer_prefix_lists_a_subset() {
    let stored = strings(&["a", "ab", "abc", "b", "Ab"]);
    let short = list_keys(&query("a", None), &stored);
    let long = list_keys(&query("ab", None), &stored);
    assert_eq!(short, "a\nab\nabc");
    assert_eq!(long, "ab\nabc");
    for line in long.split('\n') {
        assert!(short.split('\n').any(|l| l == line));
    }
}
