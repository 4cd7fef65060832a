use genv::json::load_snapshot;
use genv::protocol::{handle_request, save_failed_response, set_ok_response, Outcome, Response};
use genv::table::VarTable;

fn b(s: &str) -> Vec<u8> {
    s.as_bytes().to_vec()
}

fn segs(parts: &[&str]) -> Vec<Vec<u8>> {
    parts.iter().map(|p| b(p)).collect()
}

fn reply(o: Outcome) -> Response {
    match o {
        Outcome::Reply(r) => r,
        Outcome::Persist(_) => panic!("expected a direct reply"),
    }
}

fn snapshot(o: Outcome) -> Vec<u8> {
    match o {
        Outcome::Persist(s) => s,
        Outcome::Reply(r) => panic!("expected a snapshot to persist, got status {}", r.status),
    }
}

#[test]
fn missing_credential_is_401_and_mutates_nothing() {
    let secret = b("abc");
    let mut t = VarTable::new();
    let q = b("x=1");
    let r = reply(handle_request(&mut t, &secret, &segs(&["set"]), Some(&q), None));
    assert_eq!(r.status, 401);
    assert_eq!(r.body, b("401 Unauthorized missing X-Secret header\n"));
    // an authorized get shows no change happened
    let cred = b("abc");
    let r2 = reply(handle_request(&mut t, &secret, &segs(&["get", "x"]), None, Some(&cred)));
    assert_eq!(r2.status, 400);
    assert_eq!(r2.body, b("No value found by that name\n"));
}

#[test]
fn wrong_credential_is_401_and_mutates_nothing() {
    let secret = b("abc");
    let mut t = VarTable::new();
    t.insert(b("a"), b("old"));
    let q = b("a=new");
    let bad = b("abd");
    let r = reply(handle_request(&mut t, &secret, &segs(&["set"]), Some(&q), Some(&bad)));
    assert_eq!(r.status, 401);
    assert_eq!(r.body, b("401 Unauthorized incorrect X-Secret header value\n"));
    let cred = b("abc");
    let r2 = reply(handle_request(&mut t, &secret, &segs(&["get", "a"]), None, Some(&cred)));
    assert_eq!(r2.status, 200);
    assert_eq!(r2.body, b("old"));
}

#[test]
fn unknown_route_is_404() {
    let secret = b("abc");
    let cred = b("abc");
    let mut t = VarTable::new();
    let r = reply(handle_request(&mut t, &secret, &segs(&["nope"]), None, Some(&cred)));
    assert_eq!(r.status, 404);
    assert_eq!(r.body, b("404 Not Found\n"));
}

#[test]
fn get_by_path_segment() {
    let secret = b("abc");
    let cred = b("abc");
    let mut t = VarTable::new();
    t.insert(b("x"), b("1"));
    let r = reply(handle_request(&mut t, &secret, &segs(&["get", "x"]), None, Some(&cred)));
    assert_eq!(r.status, 200);
    assert_eq!(r.body, b("1"));
}

#[test]
fn get_by_query_parameter() {
    let secret = b("abc");
    let cred = b("abc");
    let mut t = VarTable::new();
    t.insert(b("x"), b("1"));
    let q = b("name=x");
    let r = reply(handle_request(&mut t, &secret, &segs(&["get"]), Some(&q), Some(&cred)));
    assert_eq!(r.status, 200);
    assert_eq!(r.body, b("1"));
}

#[test]
fn get_unknown_name_is_400_never_empty_200() {
    let secret = b("abc");
    let cred = b("abc");
    let mut t = VarTable::new();
    let r = reply(handle_request(&mut t, &secret, &segs(&["get", "nope"]), None, Some(&cred)));
    assert_eq!(r.status, 400);
    assert_eq!(r.body, b("No value found by that name\n"));
    assert!(!r.body.is_empty());
}

#[test]
fn get_bad_shapes_are_400() {
    let secret = b("abc");
    let cred = b("abc");
    let mut t = VarTable::new();
    t.insert(b("x"), b("1"));
    let r = reply(handle_request(&mut t, &secret, &segs(&["get", "x", "y"]), None, Some(&cred)));
    assert_eq!(r.status, 400);
    assert_eq!(r.body, b("Expected one and only one value to get by name"));
    let r2 = reply(handle_request(&mut t, &secret, &segs(&["get"]), None, Some(&cred)));
    assert_eq!(r2.status, 400);
    assert_eq!(r2.body, b("Querystring parse error\n"));
    let q = b("name=x&other=1");
    let r3 = reply(handle_request(&mut t, &secret, &segs(&["get"]), Some(&q), Some(&cred)));
    assert_eq!(r3.status, 400);
    assert_eq!(r3.body, b("Invalid number of querystring parameters\n"));
    let q2 = b("wrong=x");
    let r4 = reply(handle_request(&mut t, &secret, &segs(&["get"]), Some(&q2), Some(&cred)));
    assert_eq!(r4.status, 400);
    assert_eq!(r4.body, b("Requested parameter not found\n"));
}

#[test]
fn set_without_query_is_400() {
    let secret = b("abc");
    let cred = b("abc");
    let mut t = VarTable::new();
    let r = reply(handle_request(&mut t, &secret, &segs(&["set"]), None, Some(&cred)));
    assert_eq!(r.status, 400);
    assert_eq!(r.body, b("Querystring parse error\n"));
}

#[test]
fn set_with_empty_query_is_400() {
    let secret = b("abc");
    let cred = b("abc");
    let mut t = VarTable::new();
    let q = b("");
    let r = reply(handle_request(&mut t, &secret, &segs(&["set"]), Some(&q), Some(&cred)));
    assert_eq!(r.status, 400);
    assert_eq!(r.body, b("No values supplied to set\n"));
}

#[test]
fn set_with_repeated_name_is_400_and_leaves_table() {
    let secret = b("abc");
    let cred = b("abc");
    let mut t = VarTable::new();
    t.insert(b("a"), b("0"));
    let q = b("a=1&a=2");
    let r = reply(handle_request(&mut t, &secret, &segs(&["set"]), Some(&q), Some(&cred)));
    assert_eq!(r.status, 400);
    assert_eq!(r.body, b("Expected 1 and only 1 value per name\n"));
    let r2 = reply(handle_request(&mut t, &secret, &segs(&["get", "a"]), None, Some(&cred)));
    assert_eq!(r2.body, b("0"));
}

#[test]
fn set_with_empty_name_is_400() {
    let secret = b("abc");
    let cred = b("abc");
    let mut t = VarTable::new();
    let q = b("=1");
    let r = reply(handle_request(&mut t, &secret, &segs(&["set"]), Some(&q), Some(&cred)));
    assert_eq!(r.status, 400);
    assert_eq!(r.body, b("Variable names must not be empty\n"));
}

#[test]
fn set_decodes_percent_and_plus() {
    let secret = b("abc");
    let cred = b("abc");
    let mut t = VarTable::new();
    let q = b("a%20b=c+d%3D");
    snapshot(handle_request(&mut t, &secret, &segs(&["set"]), Some(&q), Some(&cred)));
    assert_eq!(t.get(&b("a b")), Some(&b("c d=")));
}

#[test]
fn stray_percent_stands_for_itself() {
    let secret = b("abc");
    let cred = b("abc");
    let mut t = VarTable::new();
    let q = b("a=100%");
    snapshot(handle_request(&mut t, &secret, &segs(&["set"]), Some(&q), Some(&cred)));
    assert_eq!(t.get(&b("a")), Some(&b("100%")));
}

#[test]
fn concurrent_style_disjoint_sets_all_land() {
    // the table's lock serializes set requests; in every admissible
    // order, all disjoint updates must be present afterwards
    let secret = b("abc");
    let cred = b("abc");
    let mut t = VarTable::new();
    for (name, value) in [("n1", "v1"), ("n2", "v2"), ("n3", "v3"), ("n4", "v4")] {
        let q = format!("{}={}", name, value).into_bytes();
        snapshot(handle_request(&mut t, &secret, &segs(&["set"]), Some(&q), Some(&cred)));
    }
    let r = reply(handle_request(&mut t, &secret, &segs(&["all"]), None, Some(&cred)));
    assert_eq!(r.status, 200);
    assert_eq!(
        r.body,
        b("{\"n1\":\"v1\",\"n2\":\"v2\",\"n3\":\"v3\",\"n4\":\"v4\"}")
    );
}

#[test]
fn acknowledgement_responses_are_fixed() {
    let ok = set_ok_response();
    assert_eq!(ok.status, 200);
    assert_eq!(ok.body, b("State updated\n"));
    let failed = save_failed_response();
    assert_eq!(failed.status, 500);
    assert_eq!(failed.body, b("500 Internal Server Error could not save state\n"));
}

#[test]
fn end_to_end_scenario_with_restart() {
    let secret = b("abc");
    let cred = b("abc");
    let mut t = load_snapshot(&None);
    // set x=1 -> the snapshot to persist, then a 200 acknowledgement
    let q = b("x=1");
    let snap = snapshot(handle_request(&mut t, &secret, &segs(&["set"]), Some(&q), Some(&cred)));
    assert_eq!(snap, b("{\"x\":\"1\"}"));
    assert_eq!(set_ok_response().status, 200);
    // get x -> 1
    let r = reply(handle_request(&mut t, &secret, &segs(&["get", "x"]), None, Some(&cred)));
    assert_eq!(r.status, 200);
    assert_eq!(r.body, b("1"));
    // all -> {"x":"1"}
    let r2 = reply(handle_request(&mut t, &secret, &segs(&["all"]), None, Some(&cred)));
    assert_eq!(r2.status, 200);
    assert_eq!(r2.body, b("{\"x\":\"1\"}"));
    // restart: reload from the persisted snapshot
    let mut t2 = load_snapshot(&Some(snap));
    let r3 = reply(handle_request(&mut t2, &secret, &segs(&["all"]), None, Some(&cred)));
    assert_eq!(r3.status, 200);
    assert_eq!(r3.body, b("{\"x\":\"1\"}"));
}
