//! Laws of the store, stated and proved once for all inputs.
//!
//! These are the guarantees the rest of the library's contracts add
//! up to: a snapshot reads back as exactly the table that wrote it
//! (so a restart loses nothing), a well-formed table is the one
//! canonical spelling of its mapping (so equal mappings give equal
//! snapshots and equal `all` listings), and serialized batches on
//! disjoint names never lose one another's updates, whatever order
//! the lock admitted them in.

use vstd::prelude::*;
use crate::bytes::{lex_lt, lemma_lex_lt_irreflexive, lemma_lex_lt_transitive};
use crate::table::{
    Entry, VarTable, seq_to_map, names_sorted, lemma_seq_to_map_contains, lemma_seq_to_map_value,
};
use crate::json::{
    encode_table, spec_decode, entries_pairs, pairs_map, pairs_names_nonempty, decode_ok,
    lemma_decode_encode, lemma_entries_pairs_map,
};

verus! {

/// Restart safety: the snapshot of a well-formed table decodes, into
/// exactly the table's entries, and their mapping is the table's.
/// With `load_snapshot` this says a reload after any run of
/// successful batches serves the same variables as before.
pub proof fn lemma_snapshot_round_trip(t: VarTable)
    requires
        t.wf(),
    ensures
        decode_ok(encode_table(t)),
        spec_decode(encode_table(t)) == Some(entries_pairs(t.entries@)),
        pairs_map(entries_pairs(t.entries@)) == t.as_map(),
{
    lemma_decode_encode(t);
    lemma_entries_pairs_map(t.entries@);
    assert(pairs_names_nonempty(entries_pairs(t.entries@))) by {
        assert forall|i: int| 0 <= i < t.entries@.len() implies entries_pairs(t.entries@)[i].0.len()
            > 0 by {
            assert(entries_pairs(t.entries@)[i].0 == t.entries@[i].name@);
        }
    }
}

/// Restart equality: a well-formed table whose mapping is what the
/// snapshot of `t` decodes to — which is exactly what loading that
/// snapshot yields — lists entry for entry what `t` listed before
/// the restart.
pub proof fn lemma_reload_equals(t: VarTable, reloaded: VarTable)
    requires
        t.wf(),
        reloaded.wf(),
        spec_decode(encode_table(t)) matches Some(ps) && reloaded.as_map() == pairs_map(ps),
    ensures
        entries_pairs(reloaded.entries@) == entries_pairs(t.entries@),
{
    lemma_snapshot_round_trip(t);
    lemma_sorted_seq_canonical(reloaded.entries@, t.entries@);
}

/// Canonical form: two sorted entry sequences that denote the same
/// mapping are the same sequence. Hence a well-formed table, its
/// snapshot, and its `all` listing are all determined by the mapping
/// alone, never by the order in which it was built.
pub proof fn lemma_sorted_seq_canonical(s1: Seq<Entry>, s2: Seq<Entry>)
    requires
        names_sorted(s1),
        names_sorted(s2),
        seq_to_map(s1) == seq_to_map(s2),
    ensures
        entries_pairs(s1) == entries_pairs(s2),
    decreases s1.len(),
{
    if s1.len() == 0 {
        if s2.len() > 0 {
            lemma_seq_to_map_contains(s1, s2.last().name@);
            lemma_seq_to_map_contains(s2, s2.last().name@);
            assert(s2[s2.len() - 1].name@ == s2.last().name@);
        }
        assert(entries_pairs(s1) =~= entries_pairs(s2));
    } else if s2.len() == 0 {
        lemma_seq_to_map_contains(s1, s1.last().name@);
        lemma_seq_to_map_contains(s2, s1.last().name@);
        assert(s1[s1.len() - 1].name@ == s1.last().name@);
    } else {
        let k1 = s1.last().name@;
        let k2 = s2.last().name@;
        // the last name is the largest name of either sequence, and
        // both sequences carry the same names
        lemma_seq_to_map_contains(s1, k2);
        lemma_seq_to_map_contains(s2, k2);
        lemma_seq_to_map_contains(s1, k1);
        lemma_seq_to_map_contains(s2, k1);
        assert(s1[s1.len() - 1].name@ == k1);
        assert(s2[s2.len() - 1].name@ == k2);
        assert(k1 == k2) by {
            let i = choose|i: int| 0 <= i < s1.len() && s1[i].name@ == k2;
            let j = choose|j: int| 0 <= j < s2.len() && s2[j].name@ == k1;
            if k1 != k2 {
                assert(i < s1.len() - 1);
                assert(j < s2.len() - 1);
                assert(lex_lt(k2, k1));
                assert(lex_lt(k1, k2));
                lemma_lex_lt_transitive(k1, k2, k1);
                lemma_lex_lt_irreflexive(k1);
            }
        }
        // equal last values: the last entry decides the mapping there
        lemma_seq_to_map_value(s1, s1.len() - 1);
        lemma_seq_to_map_value(s2, s2.len() - 1);
        // the tails denote the mapping without the last name
        lemma_tail_map(s1);
        lemma_tail_map(s2);
        assert(seq_to_map(s1.drop_last()) =~= seq_to_map(s2.drop_last()));
        assert(names_sorted(s1.drop_last())) by {
            assert forall|p: int, q: int| 0 <= p < q < s1.drop_last().len() implies lex_lt(
                s1.drop_last()[p].name@,
                s1.drop_last()[q].name@,
            ) by {
                assert(s1.drop_last()[p] == s1[p] && s1.drop_last()[q] == s1[q]);
            }
        }
        assert(names_sorted(s2.drop_last())) by {
            assert forall|p: int, q: int| 0 <= p < q < s2.drop_last().len() implies lex_lt(
                s2.drop_last()[p].name@,
                s2.drop_last()[q].name@,
            ) by {
                assert(s2.drop_last()[p] == s2[p] && s2.drop_last()[q] == s2[q]);
            }
        }
        lemma_sorted_seq_canonical(s1.drop_last(), s2.drop_last());
        assert(entries_pairs(s1.drop_last()) =~= entries_pairs(s1).drop_last());
        assert(entries_pairs(s2.drop_last()) =~= entries_pairs(s2).drop_last());
        assert(s1.last().value@ == s2.last().value@);
        assert(entries_pairs(s1.drop_last()).len() == s1.len() - 1);
        assert(entries_pairs(s2.drop_last()).len() == s2.len() - 1);
        assert(s1.len() == s2.len());
        assert forall|idx: int| 0 <= idx < s1.len() implies entries_pairs(s1)[idx]
            == entries_pairs(s2)[idx] by {
            if idx < s1.len() - 1 {
                assert(entries_pairs(s1)[idx] == entries_pairs(s1.drop_last())[idx]);
                assert(entries_pairs(s2)[idx] == entries_pairs(s2.drop_last())[idx]);
            } else {
                assert(entries_pairs(s1)[idx] == (s1.last().name@, s1.last().value@));
                assert(entries_pairs(s2)[idx] == (s2.last().name@, s2.last().value@));
            }
        }
        assert(entries_pairs(s1) =~= entries_pairs(s2));
    }
}

/// A sorted sequence less its last entry denotes the mapping less
/// that entry's name.
proof fn lemma_tail_map(s: Seq<Entry>)
    requires
        names_sorted(s),
        s.len() > 0,
    ensures
        seq_to_map(s.drop_last()) == seq_to_map(s).remove(s.last().name@),
{
    let k = s.last().name@;
    lemma_seq_to_map_contains(s.drop_last(), k);
    if seq_to_map(s.drop_last()).contains_key(k) {
        let i = choose|i: int| 0 <= i < s.drop_last().len() && s.drop_last()[i].name@ == k;
        assert(s[i].name@ == k);
        assert(lex_lt(s[i].name@, k));
        lemma_lex_lt_irreflexive(k);
    }
    assert(seq_to_map(s.drop_last()) =~= seq_to_map(s).remove(k));
}

/// The mapping after a run of batches, each applied atomically in
/// turn, as the table's lock serializes them.
pub open spec fn apply_batches(
    m: Map<Seq<u8>, Seq<u8>>,
    bs: Seq<Map<Seq<u8>, Seq<u8>>>,
) -> Map<Seq<u8>, Seq<u8>>
    decreases bs.len(),
{
    if bs.len() == 0 {
        m
    } else {
        apply_batches(m, bs.drop_last()).union_prefer_right(bs.last())
    }
}

/// No lost updates: after a run of batches on pairwise disjoint
/// names, every batch's pairs all stand in the final mapping —
/// whichever order the lock let the batches through.
pub proof fn lemma_disjoint_batches_all_present(
    m: Map<Seq<u8>, Seq<u8>>,
    bs: Seq<Map<Seq<u8>, Seq<u8>>>,
    i: int,
    k: Seq<u8>,
)
    requires
        0 <= i < bs.len(),
        bs[i].contains_key(k),
        forall|p: int, q: int| 0 <= p < q < bs.len() ==> bs[p].dom().disjoint(bs[q].dom()),
    ensures
        apply_batches(m, bs).contains_key(k),
        apply_batches(m, bs)[k] == bs[i][k],
    decreases bs.len(),
{
    if i == bs.len() - 1 {
        assert(bs[i] == bs.last());
    } else {
        assert forall|p: int, q: int|
            0 <= p < q < bs.drop_last().len() implies bs.drop_last()[p].dom().disjoint(
            bs.drop_last()[q].dom(),
        ) by {
            assert(bs.drop_last()[p] == bs[p] && bs.drop_last()[q] == bs[q]);
        }
        assert(bs.drop_last()[i] == bs[i]);
        lemma_disjoint_batches_all_present(m, bs.drop_last(), i, k);
        assert(bs[i].dom().disjoint(bs.last().dom()));
        assert(!bs.last().dom().contains(k));
    }
}

} // verus!
