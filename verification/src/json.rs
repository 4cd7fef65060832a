//! The snapshot codec: the variable table as a JSON object.
//!
//! A snapshot is a JSON object whose members are the table's entries
//! in ascending name order, `{"name":"value",...}`. Names and values
//! are JSON strings: quote and backslash are escaped with a
//! backslash, control bytes as `\u00XX` with lowercase hex digits,
//! and every other byte stands for itself. The decoder accepts
//! exactly this shape (no surrounding whitespace), which is the shape
//! the encoder writes and ordinary JSON decoders accept.

use vstd::prelude::*;
use crate::table::{Entry, VarTable, seq_to_map};

verus! {

pub const QUOTE: u8 = 0x22;
pub const BACKSLASH: u8 = 0x5c;
pub const LBRACE: u8 = 0x7b;
pub const RBRACE: u8 = 0x7d;
pub const COLON: u8 = 0x3a;
pub const COMMA: u8 = 0x2c;
pub const LETTER_U: u8 = 0x75;
pub const DIGIT_ZERO: u8 = 0x30;

/// The lowercase hex digit for a value below sixteen.
pub open spec fn hex_digit(n: u8) -> u8 {
    if n < 10 {
        (0x30 + n) as u8
    } else {
        (0x57 + n) as u8
    }
}

pub open spec fn is_hex_digit(b: u8) -> bool {
    (0x30 <= b && b <= 0x39) || (0x61 <= b && b <= 0x66) || (0x41 <= b && b <= 0x46)
}

/// The value of a hex digit, lowercase or uppercase.
pub open spec fn hex_val(b: u8) -> u8 {
    if 0x30 <= b && b <= 0x39 {
        (b - 0x30) as u8
    } else if 0x61 <= b && b <= 0x66 {
        (b - 0x57) as u8
    } else {
        (b - 0x37) as u8
    }
}

/// How one byte is written inside a JSON string.
pub open spec fn escape_byte(b: u8) -> Seq<u8> {
    if b == QUOTE {
        seq![BACKSLASH, QUOTE]
    } else if b == BACKSLASH {
        seq![BACKSLASH, BACKSLASH]
    } else if b < 0x20 {
        seq![BACKSLASH, LETTER_U, DIGIT_ZERO, DIGIT_ZERO, hex_digit(b / 16), hex_digit(b % 16)]
    } else {
        seq![b]
    }
}

/// A byte string written inside a JSON string, byte by byte.
pub open spec fn escape(s: Seq<u8>) -> Seq<u8>
    decreases s.len(),
{
    if s.len() == 0 {
        Seq::empty()
    } else {
        escape_byte(s[0]) + escape(s.drop_first())
    }
}

/// A byte string as a quoted JSON string.
pub open spec fn encode_string(s: Seq<u8>) -> Seq<u8> {
    seq![QUOTE] + escape(s) + seq![QUOTE]
}

/// One table entry as a JSON object member.
pub open spec fn encode_entry(e: Entry) -> Seq<u8> {
    encode_string(e.name@) + seq![COLON] + encode_string(e.value@)
}

/// The entries as a comma-separated member list.
pub open spec fn encode_entries(s: Seq<Entry>) -> Seq<u8>
    decreases s.len(),
{
    if s.len() == 0 {
        Seq::empty()
    } else if s.len() == 1 {
        encode_entry(s[0])
    } else {
        encode_entry(s[0]) + seq![COMMA] + encode_entries(s.drop_first())
    }
}

/// The whole table as a JSON object.
pub open spec fn encode_table(t: VarTable) -> Seq<u8> {
    seq![LBRACE] + encode_entries(t.entries@) + seq![RBRACE]
}

/// A hex pair read back as a byte.
pub open spec fn hex_byte(hi: u8, lo: u8) -> u8 {
    (16 * hex_val(hi) + hex_val(lo)) as u8
}

/// Reads a JSON string body, starting right after the opening quote:
/// the decoded bytes and the input left after the closing quote.
/// Accepted escapes are exactly the ones the encoder writes; a raw
/// control byte or a truncated input is malformed.
pub open spec fn parse_string_body(s: Seq<u8>) -> Option<(Seq<u8>, Seq<u8>)>
    decreases s.len(),
{
    if s.len() == 0 {
        None
    } else if s[0] == QUOTE {
        Some((Seq::empty(), s.drop_first()))
    } else if s[0] == BACKSLASH {
        if s.len() >= 2 && (s[1] == QUOTE || s[1] == BACKSLASH) {
            match parse_string_body(s.skip(2)) {
                Some(p) => Some((seq![s[1]] + p.0, p.1)),
                None => None,
            }
        } else if s.len() >= 6 && s[1] == LETTER_U && s[2] == DIGIT_ZERO && s[3] == DIGIT_ZERO
            && is_hex_digit(s[4]) && is_hex_digit(s[5]) {
            match parse_string_body(s.skip(6)) {
                Some(p) => Some((seq![hex_byte(s[4], s[5])] + p.0, p.1)),
                None => None,
            }
        } else {
            None
        }
    } else if s[0] < 0x20 {
        None
    } else {
        match parse_string_body(s.drop_first()) {
            Some(p) => Some((seq![s[0]] + p.0, p.1)),
            None => None,
        }
    }
}

/// A parsed string consumes at least its closing quote.
pub proof fn lemma_parse_string_body_shrinks(s: Seq<u8>)
    ensures
        parse_string_body(s) matches Some(p) ==> p.1.len() < s.len(),
    decreases s.len(),
{
    if s.len() > 0 {
        if s[0] == QUOTE {
        } else if s[0] == BACKSLASH {
            if s.len() >= 2 && (s[1] == QUOTE || s[1] == BACKSLASH) {
                lemma_parse_string_body_shrinks(s.skip(2));
            } else if s.len() >= 6 && s[1] == LETTER_U && s[2] == DIGIT_ZERO && s[3] == DIGIT_ZERO
                && is_hex_digit(s[4]) && is_hex_digit(s[5]) {
                lemma_parse_string_body_shrinks(s.skip(6));
            }
        } else if s[0] < 0x20 {
        } else {
            lemma_parse_string_body_shrinks(s.drop_first());
        }
    }
}

/// Reads the members of a non-empty object, starting at the first
/// member's opening quote: the name/value pairs in input order and
/// the input left after the closing brace.
pub open spec fn parse_members(s: Seq<u8>) -> Option<(Seq<(Seq<u8>, Seq<u8>)>, Seq<u8>)>
    decreases s.len(),
    via parse_members_decreases
{
    if s.len() == 0 || s[0] != QUOTE {
        None
    } else {
        match parse_string_body(s.drop_first()) {
            None => None,
            Some(np) => {
                let r1 = np.1;
                if r1.len() < 2 || r1[0] != COLON || r1[1] != QUOTE {
                    None
                } else {
                    match parse_string_body(r1.skip(2)) {
                        None => None,
                        Some(vp) => {
                            let r2 = vp.1;
                            if r2.len() == 0 {
                                None
                            } else if r2[0] == RBRACE {
                                Some((seq![(np.0, vp.0)], r2.drop_first()))
                            } else if r2[0] == COMMA {
                                match parse_members(r2.drop_first()) {
                                    Some(mp) => Some((seq![(np.0, vp.0)] + mp.0, mp.1)),
                                    None => None,
                                }
                            } else {
                                None
                            }
                        },
                    }
                }
            },
        }
    }
}

#[via_fn]
proof fn parse_members_decreases(s: Seq<u8>) {
    if s.len() > 0 && s[0] == QUOTE {
        lemma_parse_string_body_shrinks(s.drop_first());
        match parse_string_body(s.drop_first()) {
            None => {},
            Some(np) => {
                let r1 = np.1;
                if r1.len() >= 2 && r1[0] == COLON && r1[1] == QUOTE {
                    lemma_parse_string_body_shrinks(r1.skip(2));
                }
            },
        }
    }
}

/// Decodes a whole snapshot: a braced member list with nothing
/// before or after it.
pub open spec fn spec_decode(s: Seq<u8>) -> Option<Seq<(Seq<u8>, Seq<u8>)>> {
    if s.len() < 2 || s[0] != LBRACE {
        None
    } else if s.len() == 2 && s[1] == RBRACE {
        Some(Seq::empty())
    } else {
        match parse_members(s.skip(1)) {
            Some(mp) => if mp.1.len() == 0 {
                Some(mp.0)
            } else {
                None
            },
            None => None,
        }
    }
}

/// The mapping a pair list denotes; a later pair for the same name
/// overrides an earlier one.
pub open spec fn pairs_map(ps: Seq<(Seq<u8>, Seq<u8>)>) -> Map<Seq<u8>, Seq<u8>>
    decreases ps.len(),
{
    if ps.len() == 0 {
        Map::empty()
    } else {
        pairs_map(ps.drop_last()).insert(ps.last().0, ps.last().1)
    }
}

pub open spec fn pairs_names_nonempty(ps: Seq<(Seq<u8>, Seq<u8>)>) -> bool {
    forall|i: int| 0 <= i < ps.len() ==> ps[i].0.len() > 0
}

/// The entries of a table as plain name/value pairs.
pub open spec fn entries_pairs(s: Seq<Entry>) -> Seq<(Seq<u8>, Seq<u8>)> {
    Seq::new(s.len(), |i: int| (s[i].name@, s[i].value@))
}

pub proof fn lemma_entries_pairs_map(s: Seq<Entry>)
    ensures
        pairs_map(entries_pairs(s)) == seq_to_map(s),
    decreases s.len(),
{
    if s.len() == 0 {
        assert(entries_pairs(s) =~= Seq::<(Seq<u8>, Seq<u8>)>::empty());
    } else {
        assert(entries_pairs(s).drop_last() =~= entries_pairs(s.drop_last()));
        lemma_entries_pairs_map(s.drop_last());
        assert(entries_pairs(s).last() == (s.last().name@, s.last().value@));
    }
}

/// Every hex digit the encoder writes reads back as the same value.
pub proof fn lemma_hex_digit_roundtrip(n: u8)
    requires
        n < 16,
    ensures
        is_hex_digit(hex_digit(n)),
        hex_val(hex_digit(n)) == n,
{
}

/// A string the encoder wrote reads back as the original bytes, and
/// the parse stops exactly at its closing quote.
pub proof fn lemma_parse_escape(x: Seq<u8>, rest: Seq<u8>)
    ensures
        parse_string_body(escape(x) + seq![QUOTE] + rest) == Some((x, rest)),
    decreases x.len(),
{
    let s = escape(x) + seq![QUOTE] + rest;
    if x.len() == 0 {
        assert(escape(x) == Seq::<u8>::empty());
        assert(s[0] == QUOTE);
        assert(s.drop_first() =~= rest);
        assert(x =~= Seq::<u8>::empty());
    } else {
        let b = x[0];
        let tail = x.drop_first();
        lemma_parse_escape(tail, rest);
        assert(escape(x) == escape_byte(b) + escape(tail));
        let s2 = escape(tail) + seq![QUOTE] + rest;
        if b == QUOTE {
            assert(s[0] == BACKSLASH && s[1] == QUOTE);
            assert(s.skip(2) =~= s2);
            assert(seq![s[1]] + tail =~= x);
        } else if b == BACKSLASH {
            assert(s[0] == BACKSLASH && s[1] == BACKSLASH);
            assert(s.skip(2) =~= s2);
            assert(seq![s[1]] + tail =~= x);
        } else if b < 0x20 {
            assert(s[0] == BACKSLASH && s[1] == LETTER_U && s[2] == DIGIT_ZERO && s[3]
                == DIGIT_ZERO);
            lemma_hex_digit_roundtrip(b / 16);
            lemma_hex_digit_roundtrip(b % 16);
            assert(s[4] == hex_digit(b / 16) && s[5] == hex_digit(b % 16));
            assert(hex_byte(s[4], s[5]) == b);
            assert(s.skip(6) =~= s2);
            assert(seq![hex_byte(s[4], s[5])] + tail =~= x);
        } else {
            assert(s[0] == b);
            assert(s.drop_first() =~= s2);
            assert(seq![s[0]] + tail =~= x);
        }
    }
}

/// A member list the encoder wrote reads back as the same pairs, and
/// the parse stops exactly after the closing brace.
pub proof fn lemma_parse_encode_entries(s: Seq<Entry>, rest: Seq<u8>)
    requires
        s.len() >= 1,
    ensures
        parse_members(encode_entries(s) + seq![RBRACE] + rest) == Some((entries_pairs(s), rest)),
    decreases s.len(),
{
    let e = s[0];
    let input = encode_entries(s) + seq![RBRACE] + rest;
    if s.len() == 1 {
        assert(encode_entries(s) == encode_entry(e));
        let after_name = seq![COLON, QUOTE] + escape(e.value@) + seq![QUOTE] + (seq![RBRACE]
            + rest);
        assert(input[0] == QUOTE);
        assert(input.drop_first() =~= escape(e.name@) + seq![QUOTE] + after_name);
        lemma_parse_escape(e.name@, after_name);
        assert(after_name[0] == COLON && after_name[1] == QUOTE);
        assert(after_name.skip(2) =~= escape(e.value@) + seq![QUOTE] + (seq![RBRACE] + rest));
        lemma_parse_escape(e.value@, seq![RBRACE] + rest);
        let r2 = seq![RBRACE] + rest;
        assert(r2[0] == RBRACE);
        assert(r2.drop_first() =~= rest);
        assert(entries_pairs(s) =~= seq![(e.name@, e.value@)]);
    } else {
        let tail = s.drop_first();
        assert(encode_entries(s) == encode_entry(e) + seq![COMMA] + encode_entries(tail));
        let trailer = seq![COMMA] + encode_entries(tail) + seq![RBRACE] + rest;
        let after_name = seq![COLON, QUOTE] + escape(e.value@) + seq![QUOTE] + trailer;
        assert(input[0] == QUOTE);
        assert(input.drop_first() =~= escape(e.name@) + seq![QUOTE] + after_name);
        lemma_parse_escape(e.name@, after_name);
        assert(after_name[0] == COLON && after_name[1] == QUOTE);
        assert(after_name.skip(2) =~= escape(e.value@) + seq![QUOTE] + trailer);
        lemma_parse_escape(e.value@, trailer);
        assert(trailer[0] == COMMA);
        assert(trailer.drop_first() =~= encode_entries(tail) + seq![RBRACE] + rest);
        lemma_parse_encode_entries(tail, rest);
        assert(seq![(e.name@, e.value@)] + entries_pairs(tail) =~= entries_pairs(s));
    }
}

/// The member list of at least one entry takes at least the bytes of
/// one quoted name, a colon, and a quoted value.
pub proof fn lemma_encode_entries_len(s: Seq<Entry>)
    requires
        s.len() >= 1,
    ensures
        encode_entries(s).len() >= 5,
{
    if s.len() == 1 {
        assert(encode_entries(s) == encode_entry(s[0]));
    } else {
        assert(encode_entries(s) == encode_entry(s[0]) + seq![COMMA] + encode_entries(
            s.drop_first(),
        ));
    }
}

/// Decoding inverts encoding: the snapshot of a table reads back as
/// exactly the table's entries.
pub proof fn lemma_decode_encode(t: VarTable)
    ensures
        spec_decode(encode_table(t)) == Some(entries_pairs(t.entries@)),
{
    let s = encode_table(t);
    if t.entries@.len() == 0 {
        assert(encode_entries(t.entries@) == Seq::<u8>::empty());
        assert(s =~= seq![LBRACE, RBRACE]);
        assert(entries_pairs(t.entries@) =~= Seq::<(Seq<u8>, Seq<u8>)>::empty());
    } else {
        lemma_encode_entries_len(t.entries@);
        assert(s.len() > 2);
        assert(s[0] == LBRACE);
        lemma_parse_encode_entries(t.entries@, Seq::empty());
        assert(s.skip(1) =~= encode_entries(t.entries@) + seq![RBRACE] + Seq::<u8>::empty());
    }
}

/// A snapshot decodes into a table when it parses and no member name
/// is empty (an empty name can name no variable).
pub open spec fn decode_ok(s: Seq<u8>) -> bool {
    spec_decode(s) matches Some(ps) && pairs_names_nonempty(ps)
}

/// The hex digit's value, or nothing for a byte that is no hex digit.
pub(crate) fn read_hex(b: u8) -> (r: Option<u8>)
    ensures
        match r {
            Some(v) => is_hex_digit(b) && v == hex_val(b) && v < 16,
            None => !is_hex_digit(b),
        },
{
    if 0x30 <= b && b <= 0x39 {
        Some(b - 0x30)
    } else if 0x61 <= b && b <= 0x66 {
        Some(b - 0x57)
    } else if 0x41 <= b && b <= 0x46 {
        Some(b - 0x37)
    } else {
        None
    }
}

/// Reads one JSON string starting right after its opening quote at
/// `start`: the decoded bytes and the index after the closing quote.
fn parse_string_at(bytes: &Vec<u8>, start: usize) -> (r: Option<(Vec<u8>, usize)>)
    requires
        start <= bytes@.len(),
    ensures
        match r {
            Some(p) => {
                &&& start < p.1 <= bytes@.len()
                &&& parse_string_body(bytes@.skip(start as int)) == Some(
                    (p.0@, bytes@.skip(p.1 as int)),
                )
            },
            None => parse_string_body(bytes@.skip(start as int)) is None,
        },
{
    let mut out: Vec<u8> = Vec::new();
    let mut i: usize = start;
    loop
        invariant
            start <= i <= bytes@.len(),
            match parse_string_body(bytes@.skip(i as int)) {
                Some(p) => parse_string_body(bytes@.skip(start as int)) == Some(
                    (out@ + p.0, p.1),
                ),
                None => parse_string_body(bytes@.skip(start as int)) is None,
            },
        decreases bytes@.len() - i,
    {
        let ghost cur = bytes@.skip(i as int);
        if i >= bytes.len() {
            return None;
        }
        proof {
            assert(cur[0] == bytes@[i as int]);
        }
        let b = bytes[i];
        if b == QUOTE {
            proof {
                assert(cur.drop_first() =~= bytes@.skip(i as int + 1));
                assert(out@ + Seq::<u8>::empty() =~= out@);
            }
            return Some((out, i + 1));
        }
        if b == BACKSLASH {
            if i + 1 >= bytes.len() {
                return None;
            }
            let e = bytes[i + 1];
            proof {
                assert(cur[1] == bytes@[i as int + 1]);
            }
            if e == QUOTE || e == BACKSLASH {
                let ghost out0 = out@;
                out.push(e);
                proof {
                    assert(cur.skip(2) =~= bytes@.skip(i as int + 2));
                    assert(out@ =~= out0 + seq![e]);
                    match parse_string_body(bytes@.skip(i as int + 2)) {
                        Some(p) => {
                            assert(out0 + (seq![e] + p.0) =~= out@ + p.0);
                        },
                        None => {},
                    }
                }
                i = i + 2;
            } else if e == LETTER_U {
                if bytes.len() - i < 6 {
                    proof {
                        assert(cur.len() < 6);
                    }
                    return None;
                }
                proof {
                    assert(cur.len() >= 6);
                    assert(cur[2] == bytes@[i as int + 2] && cur[3] == bytes@[i as int + 3]
                        && cur[4] == bytes@[i as int + 4] && cur[5] == bytes@[i as int + 5]);
                }
                if bytes[i + 2] != DIGIT_ZERO || bytes[i + 3] != DIGIT_ZERO {
                    return None;
                }
                let h1 = match read_hex(bytes[i + 4]) {
                    Some(v) => v,
                    None => {
                        return None;
                    },
                };
                let h2 = match read_hex(bytes[i + 5]) {
                    Some(v) => v,
                    None => {
                        return None;
                    },
                };
                let v = 16 * h1 + h2;
                let ghost out0 = out@;
                out.push(v);
                proof {
                    assert(v == hex_byte(cur[4], cur[5]));
                    assert(cur.skip(6) =~= bytes@.skip(i as int + 6));
                    assert(out@ =~= out0 + seq![v]);
                    match parse_string_body(bytes@.skip(i as int + 6)) {
                        Some(p) => {
                            assert(out0 + (seq![v] + p.0) =~= out@ + p.0);
                        },
                        None => {},
                    }
                }
                i = i + 6;
            } else {
                return None;
            }
        } else if b < 0x20 {
            return None;
        } else {
            let ghost out0 = out@;
            out.push(b);
            proof {
                assert(cur.drop_first() =~= bytes@.skip(i as int + 1));
                assert(out@ =~= out0 + seq![b]);
                match parse_string_body(bytes@.skip(i as int + 1)) {
                    Some(p) => {
                        assert(out0 + (seq![b] + p.0) =~= out@ + p.0);
                    },
                    None => {},
                }
            }
            i = i + 1;
        }
    }
}

/// Decodes a snapshot into a table, or nothing when the bytes are not
/// a snapshot the encoder could have written (or name a variable with
/// the empty string). Repeated names are allowed; the last value
/// wins, as in ordinary JSON decoders.
pub fn decode_table(bytes: &Vec<u8>) -> (r: Option<VarTable>)
    ensures
        match r {
            Some(t) => {
                &&& t.wf()
                &&& spec_decode(bytes@) matches Some(ps) && pairs_names_nonempty(ps)
                    && t.as_map() == pairs_map(ps)
            },
            None => !decode_ok(bytes@),
        },
{
    if bytes.len() < 2 {
        return None;
    }
    if bytes[0] != LBRACE {
        return None;
    }
    if bytes.len() == 2 {
        if bytes[1] == RBRACE {
            let t = VarTable::new();
            proof {
                assert(spec_decode(bytes@) == Some(Seq::<(Seq<u8>, Seq<u8>)>::empty()));
            }
            return Some(t);
        }
        proof {
            let s1 = bytes@.skip(1);
            assert(s1.len() == 1);
            if s1[0] == QUOTE {
                assert(s1.drop_first() =~= Seq::<u8>::empty());
                assert(parse_string_body(s1.drop_first()) is None);
            }
            assert(parse_members(s1) is None);
        }
        return None;
    }
    let mut t = VarTable::new();
    let ghost mut acc: Seq<(Seq<u8>, Seq<u8>)> = Seq::empty();
    let mut i: usize = 1;
    proof {
        match parse_members(bytes@.skip(1)) {
            Some(mp) => {
                assert(acc + mp.0 =~= mp.0);
            },
            None => {},
        }
    }
    loop
        invariant
            bytes@.len() > 2,
            bytes@[0] == LBRACE,
            1 <= i <= bytes@.len(),
            t.wf(),
            t.as_map() == pairs_map(acc),
            pairs_names_nonempty(acc),
            match parse_members(bytes@.skip(i as int)) {
                Some(mp) => parse_members(bytes@.skip(1)) == Some((acc + mp.0, mp.1)),
                None => parse_members(bytes@.skip(1)) is None,
            },
        decreases bytes@.len() - i,
    {
        let ghost cur = bytes@.skip(i as int);
        if i >= bytes.len() {
            return None;
        }
        proof {
            assert(cur[0] == bytes@[i as int]);
        }
        if bytes[i] != QUOTE {
            return None;
        }
        let (name, j) = match parse_string_at(bytes, i + 1) {
            Some(p) => p,
            None => {
                proof {
                    assert(cur.drop_first() =~= bytes@.skip(i as int + 1));
                }
                return None;
            },
        };
        proof {
            assert(cur.drop_first() =~= bytes@.skip(i as int + 1));
        }
        let ghost r1 = bytes@.skip(j as int);
        if bytes.len() - j < 2 {
            proof {
                assert(r1.len() < 2);
            }
            return None;
        }
        proof {
            assert(r1[0] == bytes@[j as int] && r1[1] == bytes@[j as int + 1]);
        }
        if bytes[j] != COLON || bytes[j + 1] != QUOTE {
            return None;
        }
        let (value, k) = match parse_string_at(bytes, j + 2) {
            Some(p) => p,
            None => {
                proof {
                    assert(r1.skip(2) =~= bytes@.skip(j as int + 2));
                }
                return None;
            },
        };
        proof {
            assert(r1.skip(2) =~= bytes@.skip(j as int + 2));
        }
        let ghost r2 = bytes@.skip(k as int);
        if k >= bytes.len() {
            proof {
                assert(r2.len() == 0);
            }
            return None;
        }
        proof {
            assert(r2[0] == bytes@[k as int]);
        }
        let c = bytes[k];
        if c != RBRACE && c != COMMA {
            return None;
        }
        // the member parsed; its pair opens whatever pair list the
        // rest of the input may yield
        let ghost pair = (name@, value@);
        proof {
            match parse_members(bytes@.skip(i as int)) {
                Some(mp) => {
                    assert(mp.0[0] == pair);
                },
                None => {},
            }
        }
        if name.len() == 0 {
            proof {
                match parse_members(bytes@.skip(i as int)) {
                    Some(mp) => {
                        let ps = acc + mp.0;
                        assert(ps[acc.len() as int].0.len() == 0);
                        assert(!pairs_names_nonempty(ps));
                    },
                    None => {},
                }
            }
            return None;
        }
        t.insert(name, value);
        proof {
            assert(acc.push(pair).drop_last() =~= acc);
            acc = acc.push(pair);
        }
        if c == RBRACE {
            proof {
                assert(r2.drop_first() =~= bytes@.skip(k as int + 1));
                match parse_members(bytes@.skip(i as int)) {
                    Some(mp) => {
                        assert(acc.drop_last() + mp.0 =~= acc);
                    },
                    None => {},
                }
            }
            if k + 1 != bytes.len() {
                proof {
                    assert(bytes@.skip(k as int + 1).len() > 0);
                }
                return None;
            }
            proof {
                assert(bytes@.skip(k as int + 1).len() == 0);
            }
            return Some(t);
        }
        proof {
            assert(r2.drop_first() =~= bytes@.skip(k as int + 1));
            match parse_members(bytes@.skip(k as int + 1)) {
                Some(mp) => {
                    assert(acc.drop_last() + (seq![pair] + mp.0) =~= acc + mp.0);
                },
                None => {},
            }
        }
        i = k + 1;
    }
}

/// Loads the table a snapshot holds; any absent or malformed snapshot
/// yields the empty table, so the server can always boot.
pub fn load_snapshot(bytes: &Option<Vec<u8>>) -> (t: VarTable)
    ensures
        t.wf(),
        match bytes {
            Some(b) => {
                &&& decode_ok(b@) ==> (spec_decode(b@) matches Some(ps) && t.as_map()
                    == pairs_map(ps))
                &&& !decode_ok(b@) ==> t.as_map() == Map::<Seq<u8>, Seq<u8>>::empty()
            },
            None => t.as_map() == Map::<Seq<u8>, Seq<u8>>::empty(),
        },
{
    match bytes {
        Some(b) => match decode_table(b) {
            Some(t) => t,
            None => VarTable::new(),
        },
        None => VarTable::new(),
    }
}

/// Escaping a longer string extends the escape of the shorter one.
pub proof fn lemma_escape_snoc(s: Seq<u8>, b: u8)
    ensures
        escape(s.push(b)) == escape(s) + escape_byte(b),
    decreases s.len(),
{
    if s.len() == 0 {
        assert(s.push(b)[0] == b);
        assert(s.push(b).drop_first() =~= Seq::<u8>::empty());
        assert(escape(s.push(b)) == escape_byte(b) + escape(Seq::<u8>::empty()));
        assert(escape(Seq::<u8>::empty()) == Seq::<u8>::empty());
        assert(escape(s) == Seq::<u8>::empty());
        assert(escape(s.push(b)) =~= escape(s) + escape_byte(b));
    } else {
        assert(s.push(b)[0] == s[0]);
        assert(s.push(b).drop_first() =~= s.drop_first().push(b));
        lemma_escape_snoc(s.drop_first(), b);
        assert(escape(s.push(b)) =~= escape(s) + escape_byte(b));
    }
}

/// Appends the escaped form of `s` to `out`.
fn push_escaped(out: &mut Vec<u8>, s: &Vec<u8>)
    ensures
        final(out)@ == old(out)@ + escape(s@),
{
    let ghost base = out@;
    let mut i: usize = 0;
    proof {
        assert(s@.take(0) =~= Seq::<u8>::empty());
        assert(out@ =~= base + escape(s@.take(0)));
    }
    while i < s.len()
        invariant
            i <= s@.len(),
            out@ == base + escape(s@.take(i as int)),
        decreases s@.len() - i,
    {
        let b = s[i];
        if b == QUOTE {
            out.push(BACKSLASH);
            out.push(QUOTE);
        } else if b == BACKSLASH {
            out.push(BACKSLASH);
            out.push(BACKSLASH);
        } else if b < 0x20 {
            out.push(BACKSLASH);
            out.push(LETTER_U);
            out.push(DIGIT_ZERO);
            out.push(DIGIT_ZERO);
            let hi = b / 16;
            let lo = b % 16;
            out.push(if hi < 10 { 0x30 + hi } else { 0x57 + hi });
            out.push(if lo < 10 { 0x30 + lo } else { 0x57 + lo });
        } else {
            out.push(b);
        }
        proof {
            lemma_escape_snoc(s@.take(i as int), b);
            assert(s@.take(i as int).push(b) =~= s@.take(i as int + 1));
            assert(out@ =~= base + escape(s@.take(i as int + 1)));
        }
        i = i + 1;
    }
    proof {
        assert(s@.take(s@.len() as int) =~= s@);
    }
}

/// Appends `s` as a quoted JSON string to `out`.
fn push_string(out: &mut Vec<u8>, s: &Vec<u8>)
    ensures
        final(out)@ == old(out)@ + encode_string(s@),
{
    out.push(QUOTE);
    push_escaped(out, s);
    out.push(QUOTE);
    proof {
        assert(out@ =~= old(out)@ + encode_string(s@));
    }
}

/// Serializes the table as its JSON snapshot. The same mapping always
/// gives the same bytes, because the entries sit in sorted order.
pub fn encode_table_bytes(t: &VarTable) -> (r: Vec<u8>)
    ensures
        r@ == encode_table(*t),
{
    let ghost s = t.entries@;
    let mut out: Vec<u8> = Vec::new();
    out.push(LBRACE);
    let n = t.entries.len();
    let mut i: usize = 0;
    proof {
        assert(s.skip(0) =~= s);
        assert(out@ + encode_entries(s.skip(0)) + seq![RBRACE] =~= encode_table(*t));
    }
    while i < n
        invariant
            i <= n,
            n == t.entries@.len(),
            t.entries@ == s,
            out@ + encode_entries(s.skip(i as int)) + seq![RBRACE] == encode_table(*t),
        decreases n - i,
    {
        let ghost out0 = out@;
        push_string(&mut out, &t.entries[i].name);
        out.push(COLON);
        push_string(&mut out, &t.entries[i].value);
        proof {
            assert(out@ =~= out0 + encode_entry(s[i as int]));
        }
        if i + 1 < n {
            out.push(COMMA);
        }
        proof {
            let rest = s.skip(i as int);
            assert(rest[0] == s[i as int]);
            if i + 1 < n {
                assert(rest.len() > 1);
                assert(rest.drop_first() =~= s.skip(i as int + 1));
                assert(encode_entries(rest) == encode_entry(s[i as int]) + seq![COMMA]
                    + encode_entries(s.skip(i as int + 1)));
            } else {
                assert(rest.len() == 1);
                assert(encode_entries(rest) == encode_entry(s[i as int]));
                assert(s.skip(i as int + 1) =~= Seq::<Entry>::empty());
            }
            assert(out@ + encode_entries(s.skip(i as int + 1)) + seq![RBRACE] =~= encode_table(
                *t,
            ));
        }
        i = i + 1;
    }
    out.push(RBRACE);
    proof {
        assert(s.skip(n as int) =~= Seq::<Entry>::empty());
        assert(out@ =~= encode_table(*t));
    }
    out
}

} // verus!
