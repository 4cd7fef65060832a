//! The authorized request protocol: authorizer and dispatcher.
//!
//! A request reaches the library as plain values: the path segments,
//! the querystring (if the URL had one), and the credential header
//! (if the request carried one). The dispatcher authorizes first,
//! then routes on the first path segment to the get, set or all
//! handler, or to a not-found reply. A reply leaves the table
//! untouched; only a valid `set` batch changes it, and then the
//! caller is handed the new snapshot to write durably *before*
//! acknowledging, so a client is never told "updated" when the
//! snapshot was not saved.

use vstd::prelude::*;
use vstd::string::StrSliceExecFns;
use vstd::string::StringSliceAdditionalSpecFns;
use crate::bytes::{bytes_eq, clone_bytes};
use crate::table::{VarTable, Entry, BatchError, batch_check, batch_check_from};
use crate::json::{encode_table, encode_table_bytes, pairs_map, entries_pairs};
use crate::query::{parse_query, parse_query_bytes, views_of};

verus! {

/// One HTTP reply: a status code and a body.
#[derive(Clone, Debug)]
pub struct Response {
    pub status: u16,
    pub body: Vec<u8>,
}

/// What the caller must do with a handled request: send a reply as it
/// stands, or first write the carried snapshot durably and only then
/// acknowledge (with `set_ok_response` on success, or
/// `save_failed_response` if the write failed).
pub enum Outcome {
    Reply(Response),
    Persist(Vec<u8>),
}

pub open spec fn msg_unauth_missing() -> Seq<u8> {
    "401 Unauthorized missing X-Secret header\n".spec_bytes()
}

pub open spec fn msg_unauth_wrong() -> Seq<u8> {
    "401 Unauthorized incorrect X-Secret header value\n".spec_bytes()
}

pub open spec fn msg_not_found_route() -> Seq<u8> {
    "404 Not Found\n".spec_bytes()
}

pub open spec fn msg_get_shape() -> Seq<u8> {
    "Expected one and only one value to get by name".spec_bytes()
}

pub open spec fn msg_no_value() -> Seq<u8> {
    "No value found by that name\n".spec_bytes()
}

pub open spec fn msg_query_parse() -> Seq<u8> {
    "Querystring parse error\n".spec_bytes()
}

pub open spec fn msg_query_count() -> Seq<u8> {
    "Invalid number of querystring parameters\n".spec_bytes()
}

pub open spec fn msg_param_missing() -> Seq<u8> {
    "Requested parameter not found\n".spec_bytes()
}

pub open spec fn msg_no_values() -> Seq<u8> {
    "No values supplied to set\n".spec_bytes()
}

pub open spec fn msg_dup_name() -> Seq<u8> {
    "Expected 1 and only 1 value per name\n".spec_bytes()
}

pub open spec fn msg_empty_name() -> Seq<u8> {
    "Variable names must not be empty\n".spec_bytes()
}

pub open spec fn msg_state_updated() -> Seq<u8> {
    "State updated\n".spec_bytes()
}

pub open spec fn msg_save_failed() -> Seq<u8> {
    "500 Internal Server Error could not save state\n".spec_bytes()
}

pub open spec fn route_get() -> Seq<u8> {
    "get".spec_bytes()
}

pub open spec fn route_set() -> Seq<u8> {
    "set".spec_bytes()
}

pub open spec fn route_all() -> Seq<u8> {
    "all".spec_bytes()
}

pub open spec fn name_key() -> Seq<u8> {
    "name".spec_bytes()
}

/// A request is authorized exactly when it carries the credential
/// header and its value equals the configured secret byte for byte.
pub open spec fn cred_ok(secret: &Vec<u8>, credential: Option<&Vec<u8>>) -> bool {
    credential matches Some(c) && c@ == secret@
}

/// The reply a lookup gives: the stored value, or not-found (reported
/// as a client error, as this protocol has it).
pub open spec fn lookup_reply(m: Map<Seq<u8>, Seq<u8>>, name: Seq<u8>) -> (u16, Seq<u8>) {
    if m.contains_key(name) {
        (200u16, m[name])
    } else {
        (400u16, msg_no_value())
    }
}

/// The reply of the get handler: the name comes from the second path
/// segment, or from a querystring whose one parameter is `name`; any
/// other shape is a client error.
pub open spec fn get_reply(
    m: Map<Seq<u8>, Seq<u8>>,
    segs: Seq<Seq<u8>>,
    q: Option<Seq<u8>>,
) -> (u16, Seq<u8>) {
    if segs.len() == 2 {
        lookup_reply(m, segs[1])
    } else if segs.len() == 1 {
        match q {
            None => (400u16, msg_query_parse()),
            Some(qs) => {
                let ps = parse_query(qs);
                if ps.len() != 1 {
                    (400u16, msg_query_count())
                } else if ps[0].0 != name_key() {
                    (400u16, msg_param_missing())
                } else {
                    lookup_reply(m, ps[0].1)
                }
            },
        }
    } else {
        (400u16, msg_get_shape())
    }
}

/// The first violation in a batch of decoded pairs, as `batch_check`
/// has it on entries.
pub open spec fn pairs_check_from(ps: Seq<(Seq<u8>, Seq<u8>)>, i: int) -> Option<BatchError>
    decreases ps.len() - i,
{
    if i < 0 || i >= ps.len() {
        None
    } else if ps[i].0.len() == 0 {
        Some(BatchError::EmptyName)
    } else if exists|j: int| 0 <= j < i && ps[j].0 == ps[i].0 {
        Some(BatchError::RepeatedName)
    } else {
        pairs_check_from(ps, i + 1)
    }
}

pub open spec fn pairs_check(ps: Seq<(Seq<u8>, Seq<u8>)>) -> Option<BatchError> {
    if ps.len() == 0 {
        Some(BatchError::Empty)
    } else {
        pairs_check_from(ps, 0)
    }
}

/// The batch verdict depends only on the entries' names and values.
pub proof fn lemma_pairs_check_entries(batch: Seq<Entry>)
    ensures
        pairs_check(entries_pairs(batch)) == batch_check(batch),
{
    lemma_pairs_check_from_entries(batch, 0);
}

proof fn lemma_pairs_check_from_entries(batch: Seq<Entry>, i: int)
    requires
        0 <= i <= batch.len(),
    ensures
        pairs_check_from(entries_pairs(batch), i) == batch_check_from(batch, i),
    decreases batch.len() - i,
{
    if i < batch.len() {
        lemma_pairs_check_from_entries(batch, i + 1);
        let ps = entries_pairs(batch);
        assert(ps[i].0 == batch[i].name@);
        if exists|j: int| 0 <= j < i && ps[j].0 == ps[i].0 {
            let j = choose|j: int| 0 <= j < i && ps[j].0 == ps[i].0;
            assert(batch[j].name@ == batch[i].name@);
        }
        if exists|j: int| 0 <= j < i && batch[j].name@ == batch[i].name@ {
            let j = choose|j: int| 0 <= j < i && batch[j].name@ == batch[i].name@;
            assert(ps[j].0 == ps[i].0);
        }
    }
}

/// The message a rejected batch is answered with.
pub open spec fn set_error_msg(e: BatchError) -> Seq<u8> {
    match e {
        BatchError::Empty => msg_no_values(),
        BatchError::RepeatedName => msg_dup_name(),
        BatchError::EmptyName => msg_empty_name(),
    }
}

/// The acknowledgement to send after the snapshot of a `set` was
/// written durably.
pub fn set_ok_response() -> (r: Response)
    ensures
        r.status == 200,
        r.body@ == msg_state_updated(),
{
    Response { status: 200, body: "State updated\n".as_bytes_vec() }
}

/// The reply to send when the snapshot of a `set` could not be
/// written: the mutation must never be acknowledged as durable.
pub fn save_failed_response() -> (r: Response)
    ensures
        r.status == 500,
        r.body@ == msg_save_failed(),
{
    Response {
        status: 500,
        body: "500 Internal Server Error could not save state\n".as_bytes_vec(),
    }
}

/// The get handler: a pure read.
fn handle_get(table: &VarTable, segments: &Vec<Vec<u8>>, query: Option<&Vec<u8>>) -> (r: Response)
    requires
        table.wf(),
    ensures
        ({
            let want = get_reply(
                table.as_map(),
                views_of(segments@),
                match query {
                    Some(q) => Some(q@),
                    None => None,
                },
            );
            r.status == want.0 && r.body@ == want.1
        }),
{
    if segments.len() == 2 {
        lookup(table, &segments[1])
    } else if segments.len() == 1 {
        match query {
            None => Response {
                status: 400,
                body: "Querystring parse error\n".as_bytes_vec(),
            },
            Some(q) => {
                let pairs = parse_query_bytes(q);
                if pairs.len() != 1 {
                    proof {
                        assert(entries_pairs(pairs@).len() == pairs@.len());
                    }
                    Response {
                        status: 400,
                        body: "Invalid number of querystring parameters\n".as_bytes_vec(),
                    }
                } else {
                    proof {
                        assert(entries_pairs(pairs@)[0] == (
                            pairs@[0].name@,
                            pairs@[0].value@,
                        ));
                    }
                    let nk = "name".as_bytes_vec();
                    if !bytes_eq(&pairs[0].name, &nk) {
                        Response {
                            status: 400,
                            body: "Requested parameter not found\n".as_bytes_vec(),
                        }
                    } else {
                        lookup(table, &pairs[0].value)
                    }
                }
            },
        }
    } else {
        Response {
            status: 400,
            body: "Expected one and only one value to get by name".as_bytes_vec(),
        }
    }
}

/// One table lookup turned into a reply.
fn lookup(table: &VarTable, name: &Vec<u8>) -> (r: Response)
    requires
        table.wf(),
    ensures
        r.status == lookup_reply(table.as_map(), name@).0,
        r.body@ == lookup_reply(table.as_map(), name@).1,
{
    match table.get(name) {
        Some(v) => Response { status: 200, body: clone_bytes(v) },
        None => Response { status: 400, body: "No value found by that name\n".as_bytes_vec() },
    }
}

/// The dispatcher: authorize, route, handle. Every outcome is pinned:
/// an unauthorized or read-only request leaves the table as it was
/// and yields `Reply`; only a valid `set` batch updates the table,
/// and then the outcome is `Persist` with the snapshot of the new
/// table, to be written before the acknowledgement is sent.
pub fn handle_request(
    table: &mut VarTable,
    secret: &Vec<u8>,
    segments: &Vec<Vec<u8>>,
    query: Option<&Vec<u8>>,
    credential: Option<&Vec<u8>>,
) -> (r: Outcome)
    requires
        old(table).wf(),
    ensures
        final(table).wf(),
        r matches Outcome::Reply(_) ==> *final(table) == *old(table),
        !cred_ok(secret, credential) ==> {
            &&& r matches Outcome::Reply(resp) && resp.status == 401 && resp.body@ == (
            match credential {
                None => msg_unauth_missing(),
                Some(_) => msg_unauth_wrong(),
            })
        },
        cred_ok(secret, credential) ==> ({
            let m0 = old(table).as_map();
            let segs = views_of(segments@);
            let qv = match query {
                Some(q) => Some(q@),
                None => None,
            };
            if segs.len() == 0 || (segs[0] != route_get() && segs[0] != route_set() && segs[0]
                != route_all()) {
                r matches Outcome::Reply(resp) && resp.status == 404 && resp.body@
                    == msg_not_found_route()
            } else if segs[0] == route_get() {
                r matches Outcome::Reply(resp) && resp.status == get_reply(m0, segs, qv).0
                    && resp.body@ == get_reply(m0, segs, qv).1
            } else if segs[0] == route_all() {
                r matches Outcome::Reply(resp) && resp.status == 200 && resp.body@
                    == encode_table(*old(table))
            } else {
                match qv {
                    None => r matches Outcome::Reply(resp) && resp.status == 400 && resp.body@
                        == msg_query_parse(),
                    Some(qs) => match pairs_check(parse_query(qs)) {
                        Some(e) => r matches Outcome::Reply(resp) && resp.status == 400
                            && resp.body@ == set_error_msg(e),
                        None => {
                            &&& final(table).as_map() == m0.union_prefer_right(
                                pairs_map(parse_query(qs)),
                            )
                            &&& r matches Outcome::Persist(snap) && snap@ == encode_table(
                                *final(table),
                            )
                        },
                    },
                }
            }
        }),
{
    let authorized = match credential {
        Some(c) => bytes_eq(c, secret),
        None => false,
    };
    if !authorized {
        let body = match credential {
            None => "401 Unauthorized missing X-Secret header\n".as_bytes_vec(),
            Some(_) => "401 Unauthorized incorrect X-Secret header value\n".as_bytes_vec(),
        };
        return Outcome::Reply(Response { status: 401, body });
    }
    if segments.len() == 0 {
        return Outcome::Reply(
            Response { status: 404, body: "404 Not Found\n".as_bytes_vec() },
        );
    }
    proof {
        assert(views_of(segments@)[0] == segments@[0]@);
    }
    let w_get = "get".as_bytes_vec();
    let w_set = "set".as_bytes_vec();
    let w_all = "all".as_bytes_vec();
    if bytes_eq(&segments[0], &w_get) {
        return Outcome::Reply(handle_get(table, segments, query));
    }
    if bytes_eq(&segments[0], &w_all) {
        return Outcome::Reply(Response { status: 200, body: encode_table_bytes(table) });
    }
    if bytes_eq(&segments[0], &w_set) {
        let q = match query {
            Some(q) => q,
            None => {
                return Outcome::Reply(
                    Response { status: 400, body: "Querystring parse error\n".as_bytes_vec() },
                );
            },
        };
        let batch = parse_query_bytes(q);
        proof {
            lemma_pairs_check_entries(batch@);
        }
        match table.set_many(&batch) {
            Ok(()) => {
                proof {
                    crate::json::lemma_entries_pairs_map(batch@);
                }
                let snap = encode_table_bytes(table);
                return Outcome::Persist(snap);
            },
            Err(e) => {
                let body = match e {
                    BatchError::Empty => "No values supplied to set\n".as_bytes_vec(),
                    BatchError::RepeatedName => "Expected 1 and only 1 value per name\n"
                        .as_bytes_vec(),
                    BatchError::EmptyName => "Variable names must not be empty\n".as_bytes_vec(),
                };
                return Outcome::Reply(Response { status: 400, body });
            },
        }
    }
    Outcome::Reply(Response { status: 404, body: "404 Not Found\n".as_bytes_vec() })
}

} // verus!
