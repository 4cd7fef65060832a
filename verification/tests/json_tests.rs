use std::collections::BTreeMap;
use genv::json::{decode_table, encode_table_bytes, load_snapshot};
use genv::table::VarTable;

fn b(s: &str) -> Vec<u8> {
    s.as_bytes().to_vec()
}

#[test]
fn encode_empty_table() {
    let t = VarTable::new();
    assert_eq!(encode_table_bytes(&t), b("{}"));
}

#[test]
fn encode_is_sorted_and_exact() {
    let mut t = VarTable::new();
    t.insert(b("x"), b("1"));
    t.insert(b("a"), b("2"));
    assert_eq!(encode_table_bytes(&t), b("{\"a\":\"2\",\"x\":\"1\"}"));
}

#[test]
fn encode_escapes_quote_backslash_and_control() {
    let mut t = VarTable::new();
    t.insert(b("k"), b("a\"b\\c\nd"));
    assert_eq!(encode_table_bytes(&t), b("{\"k\":\"a\\\"b\\\\c\\u000ad\"}"));
}

#[test]
fn decode_empty_object() {
    let t = decode_table(&b("{}")).expect("empty object decodes");
    assert_eq!(t.all().len(), 0);
}

#[test]
fn decode_simple_object() {
    let t = decode_table(&b("{\"x\":\"1\"}")).expect("object decodes");
    assert_eq!(t.get(&b("x")), Some(&b("1")));
    assert_eq!(t.all().len(), 1);
}

#[test]
fn decode_inverts_encode() {
    let mut t = VarTable::new();
    t.insert(b("name"), b("value with spaces"));
    t.insert(b("quoted"), b("say \"hi\""));
    t.insert(b("path"), b("C:\\tmp"));
    t.insert(b("ctl"), b("tab\there"));
    let bytes = encode_table_bytes(&t);
    let back = decode_table(&bytes).expect("own snapshot decodes");
    let before: Vec<(Vec<u8>, Vec<u8>)> =
        t.all().iter().map(|e| (e.name.clone(), e.value.clone())).collect();
    let after: Vec<(Vec<u8>, Vec<u8>)> =
        back.all().iter().map(|e| (e.name.clone(), e.value.clone())).collect();
    assert_eq!(before, after);
}

#[test]
fn decode_rejects_malformed() {
    assert!(decode_table(&b("")).is_none());
    assert!(decode_table(&b("{")).is_none());
    assert!(decode_table(&b("[]")).is_none());
    assert!(decode_table(&b("{\"a\":\"1\"")).is_none());
    assert!(decode_table(&b("{\"a\":\"1\"}x")).is_none());
    assert!(decode_table(&b("{\"a\":1}")).is_none());
    assert!(decode_table(&b("{\"a\" : \"1\"}")).is_none());
}

#[test]
fn decode_accepts_both_hex_cases_in_escapes() {
    let lower = decode_table(&b("{\"a\":\"\\u000a\"}")).expect("decodes");
    assert_eq!(lower.get(&b("a")), Some(&b("\n")));
    let upper = decode_table(&b("{\"a\":\"\\u000A\"}")).expect("decodes");
    assert_eq!(upper.get(&b("a")), Some(&b("\n")));
}

#[test]
fn decode_rejects_raw_control_byte_in_string() {
    assert!(decode_table(&b("{\"a\":\"x\ny\"}")).is_none());
}

#[test]
fn empty_value_round_trips() {
    let mut t = VarTable::new();
    t.insert(b("empty"), b(""));
    let bytes = encode_table_bytes(&t);
    assert_eq!(bytes, b("{\"empty\":\"\"}"));
    let back = decode_table(&bytes).expect("decodes");
    assert_eq!(back.get(&b("empty")), Some(&b("")));
}

#[test]
fn decode_rejects_empty_name() {
    assert!(decode_table(&b("{\"\":\"1\"}")).is_none());
}

#[test]
fn decode_repeated_name_last_wins() {
    let t = decode_table(&b("{\"a\":\"1\",\"a\":\"2\"}")).expect("decodes");
    assert_eq!(t.get(&b("a")), Some(&b("2")));
    assert_eq!(t.all().len(), 1);
}

#[test]
fn snapshot_round_trips_through_ordinary_json_decoder() {
    let mut t = VarTable::new();
    t.insert(b("x"), b("1"));
    t.insert(b("quoted"), b("say \"hi\"\n"));
    t.insert(b("backslash"), b("a\\b"));
    let bytes = encode_table_bytes(&t);
    let text = String::from_utf8(bytes.clone()).expect("snapshot is UTF-8 here");
    let parsed: BTreeMap<String, String> =
        serde_json::from_str(&text).expect("ordinary decoder accepts the snapshot");
    assert_eq!(parsed.len(), 3);
    assert_eq!(parsed["x"], "1");
    assert_eq!(parsed["quoted"], "say \"hi\"\n");
    assert_eq!(parsed["backslash"], "a\\b");
}

#[test]
fn snapshot_matches_ordinary_json_encoder_on_plain_text() {
    let mut t = VarTable::new();
    t.insert(b("b"), b("2"));
    t.insert(b("a"), b("1"));
    let mut m: BTreeMap<String, String> = BTreeMap::new();
    m.insert("b".to_string(), "2".to_string());
    m.insert("a".to_string(), "1".to_string());
    let theirs = serde_json::to_string(&m).expect("serializes");
    assert_eq!(encode_table_bytes(&t), theirs.as_bytes().to_vec());
}

#[test]
fn load_snapshot_absent_or_malformed_gives_empty_table() {
    assert_eq!(load_snapshot(&None).all().len(), 0);
    assert_eq!(load_snapshot(&Some(b("not json at all"))).all().len(), 0);
    assert_eq!(load_snapshot(&Some(b("{\"\":\"v\"}"))).all().len(), 0);
}

#[test]
fn state_survives_restart() {
    // successful set batches, then a reload from the snapshot
    let mut t = VarTable::new();
    t.insert(b("x"), b("1"));
    t.insert(b("y"), b("2"));
    let before = encode_table_bytes(&t);
    let reloaded = load_snapshot(&Some(before.clone()));
    assert_eq!(encode_table_bytes(&reloaded), before);
    assert_eq!(reloaded.get(&b("x")), Some(&b("1")));
    assert_eq!(reloaded.get(&b("y")), Some(&b("2")));
}
