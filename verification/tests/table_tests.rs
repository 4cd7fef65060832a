use genv::table::{BatchError, Entry, VarTable};

fn b(s: &str) -> Vec<u8> {
    s.as_bytes().to_vec()
}

fn entry(name: &str, value: &str) -> Entry {
    Entry { name: b(name), value: b(value) }
}

#[test]
fn insert_then_get_returns_value() {
    let mut t = VarTable::new();
    t.insert(b("x"), b("1"));
    assert_eq!(t.get(&b("x")), Some(&b("1")));
}

#[test]
fn get_never_written_is_none() {
    let t = VarTable::new();
    assert_eq!(t.get(&b("ghost_var")), None);
}

#[test]
fn insert_overwrites_value() {
    let mut t = VarTable::new();
    t.insert(b("a"), b("1"));
    t.insert(b("a"), b("2"));
    assert_eq!(t.get(&b("a")), Some(&b("2")));
    assert_eq!(t.all().len(), 1);
}

#[test]
fn all_is_sorted_by_name() {
    let mut t = VarTable::new();
    t.insert(b("b"), b("2"));
    t.insert(b("c"), b("3"));
    t.insert(b("a"), b("1"));
    let names: Vec<Vec<u8>> = t.all().iter().map(|e| e.name.clone()).collect();
    assert_eq!(names, vec![b("a"), b("b"), b("c")]);
}

#[test]
fn set_many_applies_whole_batch() {
    let mut t = VarTable::new();
    let batch = vec![entry("y", "2"), entry("x", "1")];
    assert_eq!(t.set_many(&batch), Ok(()));
    assert_eq!(t.get(&b("x")), Some(&b("1")));
    assert_eq!(t.get(&b("y")), Some(&b("2")));
}

#[test]
fn set_many_rejects_empty_batch() {
    let mut t = VarTable::new();
    let batch: Vec<Entry> = Vec::new();
    assert_eq!(t.set_many(&batch), Err(BatchError::Empty));
    assert_eq!(t.all().len(), 0);
}

#[test]
fn set_many_rejects_repeated_name_and_keeps_old_value() {
    let mut t = VarTable::new();
    t.insert(b("a"), b("0"));
    let batch = vec![entry("a", "1"), entry("a", "2")];
    assert_eq!(t.set_many(&batch), Err(BatchError::RepeatedName));
    // the pre-batch value is still served
    assert_eq!(t.get(&b("a")), Some(&b("0")));
}

#[test]
fn set_many_rejects_empty_name() {
    let mut t = VarTable::new();
    let batch = vec![entry("", "1")];
    assert_eq!(t.set_many(&batch), Err(BatchError::EmptyName));
    assert_eq!(t.all().len(), 0);
}

#[test]
fn set_many_rejection_leaves_no_partial_update() {
    let mut t = VarTable::new();
    let batch = vec![entry("b", "2"), entry("a", "1"), entry("a", "3")];
    assert_eq!(t.set_many(&batch), Err(BatchError::RepeatedName));
    // nothing of the batch was applied, not even the valid prefix
    assert_eq!(t.get(&b("b")), None);
    assert_eq!(t.get(&b("a")), None);
}

#[test]
fn disjoint_batches_lose_no_updates() {
    // serialized one after the other, as the table's lock admits them
    let mut t = VarTable::new();
    assert_eq!(t.set_many(&vec![entry("x", "1")]), Ok(()));
    assert_eq!(t.set_many(&vec![entry("y", "2")]), Ok(()));
    assert_eq!(t.set_many(&vec![entry("z", "3")]), Ok(()));
    assert_eq!(t.all().len(), 3);
    assert_eq!(t.get(&b("x")), Some(&b("1")));
    assert_eq!(t.get(&b("y")), Some(&b("2")));
    assert_eq!(t.get(&b("z")), Some(&b("3")));
}

#[test]
fn byte_order_is_lexicographic() {
    assert!(genv::bytes::bytes_lt(&b("a"), &b("b")));
    assert!(genv::bytes::bytes_lt(&b("a"), &b("ab")));
    assert!(!genv::bytes::bytes_lt(&b("b"), &b("a")));
    assert!(!genv::bytes::bytes_lt(&b("a"), &b("a")));
    assert!(genv::bytes::bytes_eq(&b("a"), &b("a")));
    assert!(!genv::bytes::bytes_eq(&b("a"), &b("b")));
}
