use pghstorers::load::{load_into_hashmap, load_into_vec, try_load_into_vec, HStoreParser};

#[test]
fn handles_empty_string() {
    let s: &str = "";
    let pairs_vec = load_into_vec(s);
    assert_eq!(pairs_vec.len(), 0);
}

#[test]
fn load_parses_a_single_pair() {
    let s: &str = "\"key\"=>\"value\"";
    let pairs_vec = load_into_vec(s);
    assert_eq!(pairs_vec.len(), 1);
    let pairs_map = load_into_hashmap(s);
    assert_eq!(pairs_map.len(), 1);
}

#[test]
fn load_allows_spaces_around_hashrocket() {
    let s = String::from("\"key\"  =>  \"value\"");
    let pairs_map = load_into_hashmap(&s);
    assert_eq!(pairs_map.len(), 1);
}

#[test]
fn load_unescapes_escaped_quotes() {
    let s = String::from("\"key_\\\"with\\\"_quote\"  =>  \"value_\\\"with\\\"_quote\"");
    let value = String::from("value_\"with\"_quote");
    let pairs_map = load_into_hashmap(&s);
    assert_eq!(pairs_map.len(), 1);
    assert_eq!(pairs_map.get("key_\"with\"_quote"), Some(&Some(value)));
}

#[test]
fn load_unescapes_escaped_escape_characters() {
    let s = String::from("\"key_\\\\with\\\\_backslash\"  =>  \"value_\\\\with\\\\_backslash\"");
    let value = String::from("value_\\with\\_backslash");
    let pairs_map = load_into_hashmap(&s);
    assert_eq!(pairs_map.len(), 1);
    assert_eq!(pairs_map.get("key_\\with\\_backslash"), Some(&Some(value)));
}

#[test]
fn handles_null() {
    let s: &str = "\"key\"=>NULL";
    let map = load_into_hashmap(s);
    assert_eq!(map.get("key"), Some(&None));
}

#[test]
fn handles_null_and_others() {
    let s: &str = "\"key\"=>NULL,\"a_following_key\"=>\"value\"";
    let map = load_into_hashmap(s);
    assert_eq!(map.len(), 2);
}

#[test]
fn empty_text_has_no_pairs() {
    assert_eq!(load_into_vec(""), Vec::new());
    assert_eq!(load_into_hashmap("").len(), 0);
}

#[test]
fn single_pair_maps_key_to_value() {
    let map = load_into_hashmap("\"key\"=>\"value\"");
    assert_eq!(map.len(), 1);
    assert_eq!(map.get("key"), Some(&Some("value".to_string())));
}

#[test]
fn spaces_around_hashrocket_parse_like_tight_form() {
    let tight = load_into_vec("\"key\"=>\"value\"");
    let spaced = load_into_vec("\"key\"  =>  \"value\"");
    assert_eq!(tight, spaced);
    let map = load_into_hashmap("\"key\"  =>  \"value\"");
    assert_eq!(map.get("key"), Some(&Some("value".to_string())));
}

#[test]
fn tight_escaped_quotes_unescape() {
    let map = load_into_hashmap("\"key_\\\"with\\\"_quote\"=>\"value_\\\"with\\\"_quote\"");
    assert_eq!(map.len(), 1);
    assert_eq!(map.get("key_\"with\"_quote"), Some(&Some("value_\"with\"_quote".to_string())));
}

#[test]
fn null_then_following_key() {
    let map = load_into_hashmap("\"key\"=>NULL,\"a_following_key\"=>\"value\"");
    assert_eq!(map.len(), 2);
    assert_eq!(map.get("key"), Some(&None));
    assert_eq!(map.get("a_following_key"), Some(&Some("value".to_string())));
}

#[test]
fn duplicate_keys_keep_later_value() {
    let s = "\"k\"=>\"first\",\"k\"=>\"second\"";
    let pairs = load_into_vec(s);
    assert_eq!(pairs.len(), 2);
    let map = load_into_hashmap(s);
    assert_eq!(map.len(), 1);
    assert_eq!(map.get("k"), Some(&Some("second".to_string())));
}

#[test]
fn sequence_keeps_order_and_nulls() {
    let pairs = load_into_vec("\"b\"=>\"1\", \"a\"=>null,\"c\"=>\"\"");
    assert_eq!(
        pairs,
        vec![
            ("b".to_string(), Some("1".to_string())),
            ("a".to_string(), None),
            ("c".to_string(), Some(String::new())),
        ]
    );
}

#[test]
fn null_token_is_case_insensitive() {
    let pairs = load_into_vec("\"k\"=>nUlL");
    assert_eq!(pairs, vec![("k".to_string(), None)]);
}

#[test]
fn backslash_before_other_character_is_dropped() {
    let pairs = load_into_vec("\"a\\b\"=>\"c\\nd\"");
    assert_eq!(pairs, vec![("ab".to_string(), Some("cnd".to_string()))]);
}

#[test]
fn key_without_value_ends_the_sequence() {
    let pairs = load_into_vec("\"a\"=>\"1\",\"b\"=>42,\"c\"=>\"3\"");
    assert_eq!(pairs, vec![("a".to_string(), Some("1".to_string()))]);
}

#[test]
fn malformed_null_is_an_error() {
    let r = try_load_into_vec("\"a\"=>\"1\",\"bad\"=>nil,\"c\"=>\"3\"");
    match r {
        Err(e) => assert_eq!(e.key, "bad"),
        Ok(_) => panic!("a malformed NULL token must be rejected"),
    }
}

#[test]
fn well_formed_text_loads_without_error() {
    let r = try_load_into_vec("\"a\"=>\"1\",\"b\"=>NULL");
    match r {
        Ok(v) => assert_eq!(v, vec![("a".to_string(), Some("1".to_string())), ("b".to_string(), None)]),
        Err(_) => panic!("well-formed text must load"),
    }
}

#[test]
fn parser_hands_out_pairs_one_at_a_time() {
    let text = String::from("\"x\"=>\"1\",\"y\"=>NULL");
    let mut parser = HStoreParser::from(&text);
    assert_eq!(parser.next(), Some(("x".to_string(), Some("1".to_string()))));
    assert_eq!(parser.next(), Some(("y".to_string(), None)));
    assert_eq!(parser.next(), None);
    assert_eq!(parser.next(), None);
}

#[test]
fn parser_reports_malformed_value() {
    let text = String::from("\"x\"=>Nope");
    let mut parser = HStoreParser::from(&text);
    match parser.try_next() {
        Err(e) => assert_eq!(e.key, "x"),
        Ok(_) => panic!("a malformed NULL token must be rejected"),
    }
}

#[test]
fn non_ascii_text_round_trips_through_the_scanner() {
    let pairs = load_into_vec("\"clé\"=>\"värde ✓\"");
    assert_eq!(pairs, vec![("clé".to_string(), Some("värde ✓".to_string()))]);
}
