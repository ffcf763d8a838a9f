use pghstorers::dump::{dump_hashmap, dump_keypair, escape};
use pghstorers::load::{load_into_hashmap, load_into_vec};
use pghstorers::pair_map::PairMap;

#[test]
fn dump_keypair_converts_to_hstore_key_value() {
    assert_eq!(
        dump_keypair(&"my_key".to_string(), &Some("my_value".to_string())),
        "\"my_key\"=>\"my_value\""
    );
}

#[test]
fn dump_keypair_handles_null_value() {
    assert_eq!(dump_keypair(&"my_key".to_string(), &None), "\"my_key\"=>NULL");
}

#[test]
fn converts_to_hstore_key_value_with_quotes() {
    assert_eq!(
        dump_keypair(&"my_\"quoted\"_key".to_string(), &Some("my_\"quoted\"_value".to_string()),),
        "\"my_\\\"quoted\\\"_key\"=>\"my_\\\"quoted\\\"_value\""
    );
}

#[test]
fn converts_to_hstore_key_value_with_backslashes() {
    assert_eq!(
        dump_keypair(&"my_\\escaped\\_key".to_string(), &Some("my_\\escaped\\_value".to_string()),),
        "\"my_\\\\escaped\\\\_key\"=>\"my_\\\\escaped\\\\_value\""
    );
}

#[test]
fn converts_hashmap_to_string() {
    let mut map = PairMap::new();
    map.insert("null_key".to_string(), None);
    map.insert("a_key".to_string(), Some("a".to_string()));
    let dumped = dump_hashmap(&map);
    assert!(dumped.contains("\"null_key\"=>NULL"));
    assert!(dumped.contains("\"a_key\"=>\"a\""));
}

#[test]
fn escape_doubles_backslashes_and_escapes_quotes() {
    assert_eq!(escape(&"a\\b\"c".to_string()), "a\\\\b\\\"c");
    assert_eq!(escape(&"\\\"".to_string()), "\\\\\\\"");
    assert_eq!(escape(&String::new()), "");
}

#[test]
fn dump_hashmap_keeps_insertion_order() {
    let mut map = PairMap::new();
    map.insert("b".to_string(), Some("2".to_string()));
    map.insert("a".to_string(), None);
    map.insert("b".to_string(), Some("3".to_string()));
    assert_eq!(map.len(), 2);
    assert_eq!(dump_hashmap(&map), "\"b\"=>\"3\",\"a\"=>NULL");
    assert_eq!(dump_hashmap(&PairMap::new()), "");
}

#[test]
fn pair_with_value_round_trips() {
    let key = "k \"quoted\" \\ back".to_string();
    let value = Some("v => \"x\", \\\\ NULL".to_string());
    let text = dump_keypair(&key, &value);
    assert_eq!(load_into_vec(&text), vec![(key, value)]);
}

#[test]
fn pair_without_value_round_trips() {
    let key = "nothing \\\" here".to_string();
    let text = dump_keypair(&key, &None);
    assert_eq!(load_into_vec(&text), vec![(key, None)]);
}

#[test]
fn duplicate_rendered_key_keeps_later_value() {
    let first = dump_keypair(&"dup".to_string(), &Some("old".to_string()));
    let second = dump_keypair(&"dup".to_string(), &None);
    let text = format!("{},{}", first, second);
    let map = load_into_hashmap(&text);
    assert_eq!(map.len(), 1);
    assert_eq!(map.get("dup"), Some(&None));
}

#[test]
fn mapping_round_trips() {
    let mut map = PairMap::new();
    map.insert("plain".to_string(), Some("value".to_string()));
    map.insert("with \"quotes\"".to_string(), Some("and \\ slashes".to_string()));
    map.insert("absent".to_string(), None);
    map.insert("".to_string(), Some(String::new()));
    let text = dump_hashmap(&map);
    let back = load_into_hashmap(&text);
    assert_eq!(back.len(), map.len());
    assert_eq!(back.entries(), map.entries());
    assert_eq!(back.get("with \"quotes\""), Some(&Some("and \\ slashes".to_string())));
    assert_eq!(back.get("absent"), Some(&None));
    assert_eq!(back.get("missing"), None);
}
