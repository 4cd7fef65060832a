//! The querystring grammar of the wire protocol.
//!
//! A query is `name=value` pairs separated by `&`. Within a name or
//! value, `+` stands for a space and `%XY` (two hex digits) for the
//! byte `0xXY`; a `%` not followed by two hex digits stands for
//! itself, as common form decoders have it. A piece without `=` is a
//! name with the empty value, and empty pieces (as in `a=1&&b=2`)
//! are skipped.

use vstd::prelude::*;
use vstd::slice::{slice_subrange, slice_to_vec};
use crate::json::{is_hex_digit, hex_byte, entries_pairs, read_hex};
use crate::table::Entry;

verus! {

pub const AMPERSAND: u8 = 0x26;
pub const EQUALS: u8 = 0x3d;
pub const PLUS: u8 = 0x2b;
pub const SPACE: u8 = 0x20;
pub const PERCENT: u8 = 0x25;

/// The input cut at every separator byte: always one piece more than
/// there are separators, so never empty.
pub open spec fn split_byte(q: Seq<u8>, sep: u8) -> Seq<Seq<u8>>
    decreases q.len(),
{
    if q.len() == 0 {
        seq![Seq::empty()]
    } else if q[0] == sep {
        seq![Seq::<u8>::empty()] + split_byte(q.drop_first(), sep)
    } else {
        let rest = split_byte(q.drop_first(), sep);
        seq![seq![q[0]] + rest[0]] + rest.drop_first()
    }
}

pub proof fn lemma_split_byte_len(q: Seq<u8>, sep: u8)
    ensures
        split_byte(q, sep).len() >= 1,
    decreases q.len(),
{
    if q.len() > 0 {
        lemma_split_byte_len(q.drop_first(), sep);
    }
}

/// A piece cut at its first `=`: the name before it and the value
/// after it; a piece without `=` is all name.
pub open spec fn split_pair(p: Seq<u8>) -> (Seq<u8>, Seq<u8>)
    decreases p.len(),
{
    if p.len() == 0 {
        (Seq::empty(), Seq::empty())
    } else if p[0] == EQUALS {
        (Seq::empty(), p.drop_first())
    } else {
        let np = split_pair(p.drop_first());
        (seq![p[0]] + np.0, np.1)
    }
}

/// Percent- and plus-decoding of one name or value.
pub open spec fn pct_decode(s: Seq<u8>) -> Seq<u8>
    decreases s.len(),
{
    if s.len() == 0 {
        Seq::empty()
    } else if s[0] == PLUS {
        seq![SPACE] + pct_decode(s.drop_first())
    } else if s[0] == PERCENT && s.len() >= 3 && is_hex_digit(s[1]) && is_hex_digit(s[2]) {
        seq![hex_byte(s[1], s[2])] + pct_decode(s.skip(3))
    } else {
        seq![s[0]] + pct_decode(s.drop_first())
    }
}

/// The decoded name/value pairs of a piece list, skipping empty
/// pieces.
pub open spec fn query_pairs(pieces: Seq<Seq<u8>>) -> Seq<(Seq<u8>, Seq<u8>)>
    decreases pieces.len(),
{
    if pieces.len() == 0 {
        Seq::empty()
    } else {
        let rest = query_pairs(pieces.drop_first());
        if pieces[0].len() == 0 {
            rest
        } else {
            seq![
                (pct_decode(split_pair(pieces[0]).0), pct_decode(split_pair(pieces[0]).1)),
            ] + rest
        }
    }
}

/// The decoded name/value pairs of a whole querystring, in input
/// order.
pub open spec fn parse_query(q: Seq<u8>) -> Seq<(Seq<u8>, Seq<u8>)> {
    query_pairs(split_byte(q, AMPERSAND))
}

/// The byte strings a vector of byte vectors holds.
pub open spec fn views_of(s: Seq<Vec<u8>>) -> Seq<Seq<u8>> {
    s.map_values(|v: Vec<u8>| v@)
}

/// Cuts the query at every `&`.
fn split_query(q: &Vec<u8>) -> (r: Vec<Vec<u8>>)
    ensures
        views_of(r@) == split_byte(q@, AMPERSAND),
{
    let ghost full = q@;
    let mut out: Vec<Vec<u8>> = Vec::new();
    let mut cur: Vec<u8> = Vec::new();
    let mut i: usize = 0;
    proof {
        lemma_split_byte_len(full, AMPERSAND);
        assert(full.skip(0) =~= full);
        let ss = split_byte(full, AMPERSAND);
        assert(seq![cur@ + ss[0]] + ss.drop_first() =~= ss);
        assert(views_of(out@) + (seq![cur@ + ss[0]] + ss.drop_first()) =~= ss);
    }
    while i < q.len()
        invariant
            i <= full.len(),
            q@ == full,
            ({
                let ss = split_byte(full.skip(i as int), AMPERSAND);
                ss.len() >= 1 && views_of(out@) + (seq![cur@ + ss[0]] + ss.drop_first())
                    == split_byte(full, AMPERSAND)
            }),
        decreases full.len() - i,
    {
        let ghost remv = full.skip(i as int);
        let ghost ss = split_byte(remv, AMPERSAND);
        proof {
            assert(remv[0] == full[i as int]);
            assert(remv.drop_first() =~= full.skip(i as int + 1));
            lemma_split_byte_len(full.skip(i as int + 1), AMPERSAND);
        }
        let b = q[i];
        if b == AMPERSAND {
            let ghost ss1 = split_byte(full.skip(i as int + 1), AMPERSAND);
            out.push(cur);
            cur = Vec::new();
            proof {
                assert(ss == seq![Seq::<u8>::empty()] + ss1);
                assert(ss[0] =~= Seq::<u8>::empty());
                assert(ss.drop_first() =~= ss1);
                assert(views_of(out@) =~= views_of(out@.drop_last()) + seq![
                    out@.last()@,
                ]);
                assert(out@.last()@ + Seq::<u8>::empty() =~= out@.last()@);
                assert(views_of(out@) + (seq![cur@ + ss1[0]] + ss1.drop_first()) =~= split_byte(
                    full,
                    AMPERSAND,
                ));
            }
        } else {
            let ghost ss1 = split_byte(full.skip(i as int + 1), AMPERSAND);
            let ghost cur0 = cur@;
            cur.push(b);
            proof {
                assert(ss == seq![seq![b] + ss1[0]] + ss1.drop_first());
                assert(ss.drop_first() =~= ss1.drop_first());
                assert(cur@ =~= cur0 + seq![b]);
                assert(cur@ + ss1[0] =~= cur0 + (seq![b] + ss1[0]));
                assert(views_of(out@) + (seq![cur@ + ss1[0]] + ss1.drop_first()) =~= split_byte(
                    full,
                    AMPERSAND,
                ));
            }
        }
        i = i + 1;
    }
    proof {
        assert(full.skip(full.len() as int) =~= Seq::<u8>::empty());
        let ss = split_byte(full.skip(full.len() as int), AMPERSAND);
        assert(ss =~= seq![Seq::<u8>::empty()]);
        assert(cur@ + ss[0] =~= cur@);
    }
    out.push(cur);
    proof {
        assert(views_of(out@) =~= views_of(out@.drop_last()) + seq![out@.last()@]);
        assert(views_of(out@) =~= split_byte(full, AMPERSAND));
    }
    out
}

/// Cuts one piece at its first `=`.
fn split_pair_bytes(p: &Vec<u8>) -> (r: (Vec<u8>, Vec<u8>))
    ensures
        r.0@ == split_pair(p@).0,
        r.1@ == split_pair(p@).1,
{
    let ghost full = p@;
    let mut i: usize = 0;
    proof {
        assert(full.skip(0) =~= full);
        assert(full.take(0) + split_pair(full).0 =~= split_pair(full).0);
    }
    while i < p.len()
        invariant
            i <= full.len(),
            p@ == full,
            forall|j: int| 0 <= j < i ==> full[j] != EQUALS,
            split_pair(full) == (full.take(i as int) + split_pair(full.skip(i as int)).0,
            split_pair(full.skip(i as int)).1),
        decreases full.len() - i,
    {
        let ghost remv = full.skip(i as int);
        proof {
            assert(remv[0] == full[i as int]);
            assert(remv.drop_first() =~= full.skip(i as int + 1));
        }
        if p[i] == EQUALS {
            let name = slice_to_vec(slice_subrange(p.as_slice(), 0, i));
            let value = slice_to_vec(slice_subrange(p.as_slice(), i + 1, p.len()));
            proof {
                assert(split_pair(remv).0 =~= Seq::<u8>::empty());
                assert(split_pair(remv).1 =~= full.skip(i as int + 1));
                assert(full.take(i as int) + Seq::<u8>::empty() =~= full.subrange(0, i as int));
                assert(full.skip(i as int + 1) =~= full.subrange(i as int + 1, full.len() as int));
            }
            return (name, value);
        }
        proof {
            let np1 = split_pair(full.skip(i as int + 1));
            assert(split_pair(remv) == (seq![full[i as int]] + np1.0, np1.1));
            assert(full.take(i as int) + (seq![full[i as int]] + np1.0) =~= full.take(i as int + 1)
                + np1.0);
        }
        i = i + 1;
    }
    proof {
        assert(full.skip(full.len() as int) =~= Seq::<u8>::empty());
        assert(split_pair(full).0 =~= full);
        assert(split_pair(full).1 =~= Seq::<u8>::empty());
    }
    let name = slice_to_vec(p.as_slice());
    (name, Vec::new())
}

/// Percent- and plus-decodes one name or value.
fn pct_decode_bytes(s: &Vec<u8>) -> (r: Vec<u8>)
    ensures
        r@ == pct_decode(s@),
{
    let ghost full = s@;
    let mut out: Vec<u8> = Vec::new();
    let mut i: usize = 0;
    proof {
        assert(full.skip(0) =~= full);
    }
    while i < s.len()
        invariant
            i <= full.len(),
            s@ == full,
            out@ + pct_decode(full.skip(i as int)) == pct_decode(full),
        decreases full.len() - i,
    {
        let ghost remv = full.skip(i as int);
        let ghost out0 = out@;
        proof {
            assert(remv[0] == full[i as int]);
            assert(remv.drop_first() =~= full.skip(i as int + 1));
        }
        let b = s[i];
        if b == PLUS {
            out.push(SPACE);
            proof {
                assert(out@ + pct_decode(full.skip(i as int + 1)) =~= out0 + (seq![SPACE]
                    + pct_decode(full.skip(i as int + 1))));
            }
            i = i + 1;
        } else if b == PERCENT && s.len() - i >= 3 {
            proof {
                assert(remv.len() >= 3);
                assert(remv[1] == full[i as int + 1] && remv[2] == full[i as int + 2]);
            }
            let h1 = read_hex(s[i + 1]);
            let h2 = read_hex(s[i + 2]);
            match (h1, h2) {
                (Some(v1), Some(v2)) => {
                    out.push(16 * v1 + v2);
                    proof {
                        assert(remv.skip(3) =~= full.skip(i as int + 3));
                        assert(out@ + pct_decode(full.skip(i as int + 3)) =~= out0 + (seq![
                            hex_byte(remv[1], remv[2]),
                        ] + pct_decode(full.skip(i as int + 3))));
                    }
                    i = i + 3;
                },
                _ => {
                    out.push(b);
                    proof {
                        assert(out@ + pct_decode(full.skip(i as int + 1)) =~= out0 + (seq![b]
                            + pct_decode(full.skip(i as int + 1))));
                    }
                    i = i + 1;
                },
            }
        } else {
            out.push(b);
            proof {
                assert(out@ + pct_decode(full.skip(i as int + 1)) =~= out0 + (seq![b]
                    + pct_decode(full.skip(i as int + 1))));
            }
            i = i + 1;
        }
    }
    proof {
        assert(full.skip(full.len() as int) =~= Seq::<u8>::empty());
        assert(out@ + Seq::<u8>::empty() =~= out@);
    }
    out
}

/// Parses a querystring into decoded name/value pairs, in input
/// order, skipping empty pieces.
pub fn parse_query_bytes(q: &Vec<u8>) -> (r: Vec<Entry>)
    ensures
        entries_pairs(r@) == parse_query(q@),
{
    let pieces = split_query(q);
    let ghost pv = views_of(pieces@);
    let mut out: Vec<Entry> = Vec::new();
    let mut k: usize = 0;
    proof {
        assert(pv.skip(0) =~= pv);
        assert(entries_pairs(out@) =~= Seq::<(Seq<u8>, Seq<u8>)>::empty());
        assert(entries_pairs(out@) + query_pairs(pv.skip(0)) =~= query_pairs(pv));
    }
    while k < pieces.len()
        invariant
            k <= pieces@.len(),
            views_of(pieces@) == pv,
            query_pairs(pv) == parse_query(q@),
            entries_pairs(out@) + query_pairs(pv.skip(k as int)) == query_pairs(pv),
        decreases pieces@.len() - k,
    {
        let ghost remv = pv.skip(k as int);
        proof {
            assert(remv[0] == pv[k as int]);
            assert(pv[k as int] == pieces@[k as int]@);
            assert(remv.drop_first() =~= pv.skip(k as int + 1));
        }
        if pieces[k].len() > 0 {
            let (rawn, rawv) = split_pair_bytes(&pieces[k]);
            let name = pct_decode_bytes(&rawn);
            let value = pct_decode_bytes(&rawv);
            let ghost out0 = out@;
            out.push(Entry { name, value });
            proof {
                assert(entries_pairs(out@) =~= entries_pairs(out0) + seq![
                    (pct_decode(split_pair(remv[0]).0), pct_decode(split_pair(remv[0]).1)),
                ]);
                assert(entries_pairs(out@) + query_pairs(pv.skip(k as int + 1)) =~= query_pairs(
                    pv,
                ));
            }
        }
        k = k + 1;
    }
    proof {
        assert(pv.skip(pv.len() as int) =~= Seq::<Seq<u8>>::empty());
        assert(entries_pairs(out@) + Seq::<(Seq<u8>, Seq<u8>)>::empty() =~= entries_pairs(out@));
    }
    out
}

} // verus!
