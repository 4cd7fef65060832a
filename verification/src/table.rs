//! The variable table: an in-memory map from names to values.
//!
//! Entries are kept sorted by name, so the table has one canonical
//! shape for every mapping, `all` hands the entries out in a
//! deterministic order, and the snapshot codec serializes the same
//! mapping to the same bytes. A batch update is validated as a whole
//! before the first entry is applied: a rejected batch leaves the
//! table untouched.

use vstd::prelude::*;
use crate::bytes::{
    lex_lt, lemma_lex_lt_irreflexive, lemma_lex_lt_total, lemma_lex_lt_transitive, bytes_lt,
    bytes_eq, clone_bytes,
};

verus! {

/// One stored variable: a name and its value, both byte strings.
#[derive(Clone, Debug)]
pub struct Entry {
    pub name: Vec<u8>,
    pub value: Vec<u8>,
}

/// The mapping that a sequence of entries denotes; a later entry for
/// the same name overrides an earlier one.
pub open spec fn seq_to_map(s: Seq<Entry>) -> Map<Seq<u8>, Seq<u8>>
    decreases s.len(),
{
    if s.len() == 0 {
        Map::empty()
    } else {
        seq_to_map(s.drop_last()).insert(s.last().name@, s.last().value@)
    }
}

pub open spec fn names_distinct(s: Seq<Entry>) -> bool {
    forall|i: int, j: int| 0 <= i < j < s.len() ==> s[i].name@ != s[j].name@
}

pub open spec fn names_sorted(s: Seq<Entry>) -> bool {
    forall|i: int, j: int| 0 <= i < j < s.len() ==> lex_lt(s[i].name@, s[j].name@)
}

pub open spec fn names_nonempty(s: Seq<Entry>) -> bool {
    forall|i: int| 0 <= i < s.len() ==> s[i].name@.len() > 0
}

pub proof fn lemma_sorted_distinct(s: Seq<Entry>)
    requires
        names_sorted(s),
    ensures
        names_distinct(s),
{
    assert forall|i: int, j: int| 0 <= i < j < s.len() implies s[i].name@ != s[j].name@ by {
        if s[i].name@ == s[j].name@ {
            assert(lex_lt(s[i].name@, s[j].name@));
            lemma_lex_lt_irreflexive(s[i].name@);
        }
    }
}

/// A key is in the mapping exactly when some entry carries it.
pub proof fn lemma_seq_to_map_contains(s: Seq<Entry>, k: Seq<u8>)
    ensures
        seq_to_map(s).contains_key(k) <==> exists|i: int| 0 <= i < s.len() && s[i].name@ == k,
    decreases s.len(),
{
    if s.len() > 0 {
        let s0 = s.drop_last();
        lemma_seq_to_map_contains(s0, k);
        if seq_to_map(s).contains_key(k) {
            if s.last().name@ == k {
                assert(s[s.len() - 1].name@ == k);
            } else {
                let i = choose|i: int| 0 <= i < s0.len() && s0[i].name@ == k;
                assert(s[i].name@ == k);
            }
        }
        if exists|i: int| 0 <= i < s.len() && s[i].name@ == k {
            let i = choose|i: int| 0 <= i < s.len() && s[i].name@ == k;
            if i < s.len() - 1 {
                assert(s0[i].name@ == k);
            }
        }
    }
}

/// The entry for a name that no later entry repeats gives that name's
/// value in the mapping.
pub proof fn lemma_seq_to_map_value(s: Seq<Entry>, i: int)
    requires
        0 <= i < s.len(),
        forall|j: int| i < j < s.len() ==> s[j].name@ != s[i].name@,
    ensures
        seq_to_map(s).contains_key(s[i].name@),
        seq_to_map(s)[s[i].name@] == s[i].value@,
    decreases s.len(),
{
    if i < s.len() - 1 {
        let s0 = s.drop_last();
        assert forall|j: int| i < j < s0.len() implies s0[j].name@ != s0[i].name@ by {
            assert(s0[j] == s[j]);
        }
        lemma_seq_to_map_value(s0, i);
        assert(s.last().name@ != s[i].name@);
    }
}

/// Overwriting the entry that carries a name updates the mapping at
/// that name alone.
pub proof fn lemma_seq_to_map_update(s: Seq<Entry>, i: int, e: Entry)
    requires
        0 <= i < s.len(),
        e.name@ == s[i].name@,
        names_distinct(s),
    ensures
        seq_to_map(s.update(i, e)) == seq_to_map(s).insert(e.name@, e.value@),
    decreases s.len(),
{
    let su = s.update(i, e);
    if i == s.len() - 1 {
        assert(su.drop_last() =~= s.drop_last());
        assert(su.last() == e);
        assert(seq_to_map(su) =~= seq_to_map(s).insert(e.name@, e.value@));
    } else {
        let s0 = s.drop_last();
        assert(su.drop_last() =~= s0.update(i, e));
        assert(su.last() == s.last());
        assert(names_distinct(s0)) by {
            assert forall|p: int, q: int| 0 <= p < q < s0.len() implies s0[p].name@ != s0[q].name@
            by {
                assert(s0[p] == s[p]);
                assert(s0[q] == s[q]);
            }
        }
        lemma_seq_to_map_update(s0, i, e);
        assert(s.last().name@ != e.name@);
        assert(seq_to_map(su) =~= seq_to_map(s).insert(e.name@, e.value@));
    }
}

/// Inserting an entry whose name no other entry carries adds exactly
/// that name to the mapping.
pub proof fn lemma_seq_to_map_insert(s: Seq<Entry>, i: int, e: Entry)
    requires
        0 <= i <= s.len(),
        forall|j: int| 0 <= j < s.len() ==> s[j].name@ != e.name@,
    ensures
        seq_to_map(s.insert(i, e)) == seq_to_map(s).insert(e.name@, e.value@),
    decreases s.len(),
{
    let si = s.insert(i, e);
    if i == s.len() {
        assert(si.drop_last() =~= s);
        assert(si.last() == e);
        assert(seq_to_map(si) =~= seq_to_map(s).insert(e.name@, e.value@));
    } else {
        let s0 = s.drop_last();
        assert(si.drop_last() =~= s0.insert(i, e));
        assert(si.last() == s.last());
        assert forall|j: int| 0 <= j < s0.len() implies s0[j].name@ != e.name@ by {
            assert(s0[j] == s[j]);
        }
        lemma_seq_to_map_insert(s0, i, e);
        assert(s.last().name@ != e.name@);
        assert(seq_to_map(si) =~= seq_to_map(s).insert(e.name@, e.value@));
    }
}

/// Why a batch update was rejected as a whole.
#[derive(Clone, Copy, Debug, PartialEq, Eq, Structural)]
pub enum BatchError {
    /// The batch holds no entry at all.
    Empty,
    /// Some name appears in more than one entry of the batch.
    RepeatedName,
    /// Some entry names the empty string.
    EmptyName,
}

/// A batch may be applied when it is non-empty, every name is
/// non-empty, and no name appears twice.
pub open spec fn batch_valid(batch: Seq<Entry>) -> bool {
    &&& batch.len() > 0
    &&& names_nonempty(batch)
    &&& names_distinct(batch)
}

/// The first violation in the batch, scanning entries left to right:
/// at each entry an empty name is reported before a repetition.
pub open spec fn batch_check_from(batch: Seq<Entry>, i: int) -> Option<BatchError>
    decreases batch.len() - i,
{
    if i < 0 || i >= batch.len() {
        None
    } else if batch[i].name@.len() == 0 {
        Some(BatchError::EmptyName)
    } else if exists|j: int| 0 <= j < i && batch[j].name@ == batch[i].name@ {
        Some(BatchError::RepeatedName)
    } else {
        batch_check_from(batch, i + 1)
    }
}

/// The verdict on a batch: the error `set_many` reports, or nothing.
pub open spec fn batch_check(batch: Seq<Entry>) -> Option<BatchError> {
    if batch.len() == 0 {
        Some(BatchError::Empty)
    } else {
        batch_check_from(batch, 0)
    }
}

/// The scan finds no violation exactly when the batch is valid.
pub proof fn lemma_batch_check_complete(batch: Seq<Entry>)
    ensures
        batch_check(batch) is None <==> batch_valid(batch),
{
    lemma_batch_check_from_complete(batch, 0);
}

proof fn lemma_batch_check_from_complete(batch: Seq<Entry>, i: int)
    requires
        0 <= i <= batch.len(),
    ensures
        batch_check_from(batch, i) is None <==> forall|k: int|
            i <= k < batch.len() ==> batch[k].name@.len() > 0 && forall|j: int|
                0 <= j < k ==> batch[j].name@ != batch[k].name@,
    decreases batch.len() - i,
{
    if i < batch.len() {
        lemma_batch_check_from_complete(batch, i + 1);
    }
}

/// Adding one pair to the right-hand side of a union lands it in the
/// union itself.
pub proof fn lemma_union_insert_right(
    m1: Map<Seq<u8>, Seq<u8>>,
    m2: Map<Seq<u8>, Seq<u8>>,
    k: Seq<u8>,
    v: Seq<u8>,
)
    ensures
        m1.union_prefer_right(m2.insert(k, v)) == m1.union_prefer_right(m2).insert(k, v),
{
    assert(m1.union_prefer_right(m2.insert(k, v)) =~= m1.union_prefer_right(m2).insert(k, v));
}

pub proof fn lemma_union_empty_right(m: Map<Seq<u8>, Seq<u8>>)
    ensures
        m.union_prefer_right(Map::empty()) == m,
{
    assert(m.union_prefer_right(Map::<Seq<u8>, Seq<u8>>::empty()) =~= m);
}

/// The in-memory variable table. Whenever `wf()` holds, the entries
/// are strictly sorted by name and every name is non-empty, so the
/// entry sequence is the one canonical spelling of `as_map()`.
#[derive(Clone, Debug)]
pub struct VarTable {
    pub entries: Vec<Entry>,
}

impl VarTable {
    /// Well-formedness: names strictly sorted (hence unique), none empty.
    pub open spec fn wf(self) -> bool {
        names_sorted(self.entries@) && names_nonempty(self.entries@)
    }

    /// The mapping the table holds.
    pub open spec fn as_map(self) -> Map<Seq<u8>, Seq<u8>> {
        seq_to_map(self.entries@)
    }

    /// An empty table.
    pub fn new() -> (r: VarTable)
        ensures
            r.wf(),
            r.as_map() == Map::<Seq<u8>, Seq<u8>>::empty(),
            r.entries@.len() == 0,
    {
        VarTable { entries: Vec::new() }
    }

    /// The index of the entry carrying `name`, if any.
    fn find(&self, name: &Vec<u8>) -> (r: Option<usize>)
        ensures
            match r {
                Some(i) => i < self.entries@.len() && self.entries@[i as int].name@ == name@,
                None => forall|i: int|
                    0 <= i < self.entries@.len() ==> self.entries@[i].name@ != name@,
            },
    {
        let mut i: usize = 0;
        while i < self.entries.len()
            invariant
                i <= self.entries@.len(),
                forall|j: int| 0 <= j < i ==> self.entries@[j].name@ != name@,
            decreases self.entries@.len() - i,
        {
            if bytes_eq(&self.entries[i].name, name) {
                return Some(i);
            }
            i = i + 1;
        }
        None
    }

    /// Pure read: the stored value for `name`, or nothing. The table
    /// is not touched.
    pub fn get(&self, name: &Vec<u8>) -> (r: Option<&Vec<u8>>)
        requires
            self.wf(),
        ensures
            match r {
                Some(v) => self.as_map().contains_key(name@) && v@ == self.as_map()[name@],
                None => !self.as_map().contains_key(name@),
            },
    {
        match self.find(name) {
            Some(i) => {
                proof {
                    lemma_sorted_distinct(self.entries@);
                    lemma_seq_to_map_value(self.entries@, i as int);
                }
                Some(&self.entries[i].value)
            },
            None => {
                proof {
                    lemma_seq_to_map_contains(self.entries@, name@);
                }
                None
            },
        }
    }

    /// The place where `name` belongs: every entry before it sorts
    /// below `name`, and the entry at it (if any) does not.
    fn insert_pos(&self, name: &Vec<u8>) -> (pos: usize)
        ensures
            pos <= self.entries@.len(),
            forall|j: int| 0 <= j < pos ==> lex_lt(self.entries@[j].name@, name@),
            pos < self.entries@.len() ==> !lex_lt(self.entries@[pos as int].name@, name@),
    {
        let mut pos: usize = 0;
        while pos < self.entries.len()
            invariant
                pos <= self.entries@.len(),
                forall|j: int| 0 <= j < pos ==> lex_lt(self.entries@[j].name@, name@),
            decreases self.entries@.len() - pos,
        {
            if !bytes_lt(&self.entries[pos].name, name) {
                return pos;
            }
            pos = pos + 1;
        }
        pos
    }

    /// Stores one variable, keeping the entries sorted: the mapping
    /// gains or overwrites exactly the one name.
    pub fn insert(&mut self, name: Vec<u8>, value: Vec<u8>)
        requires
            old(self).wf(),
            name@.len() > 0,
        ensures
            final(self).wf(),
            final(self).as_map() == old(self).as_map().insert(name@, value@),
    {
        let ghost s = self.entries@;
        let n = self.entries.len();
        let pos = self.insert_pos(&name);
        proof {
            lemma_sorted_distinct(s);
        }
        if pos < n && bytes_eq(&self.entries[pos].name, &name) {
            let e = Entry { name, value };
            proof {
                lemma_seq_to_map_update(s, pos as int, e);
            }
            self.entries[pos] = e;
            assert(names_sorted(self.entries@)) by {
                assert forall|i: int, j: int|
                    0 <= i < j < self.entries@.len() implies lex_lt(
                    self.entries@[i].name@,
                    self.entries@[j].name@,
                ) by {
                    assert(self.entries@[i].name@ == s[i].name@);
                    assert(self.entries@[j].name@ == s[j].name@);
                }
            }
        } else {
            let e = Entry { name, value };
            proof {
                // name sorts below every entry from pos on
                assert forall|k: int| pos <= k < s.len() implies lex_lt(name@, s[k].name@) by {
                    lemma_lex_lt_total(s[pos as int].name@, name@);
                    if k > pos {
                        lemma_lex_lt_transitive(name@, s[pos as int].name@, s[k].name@);
                    }
                }
                // hence no stored entry carries name
                assert forall|j: int| 0 <= j < s.len() implies s[j].name@ != name@ by {
                    if s[j].name@ == name@ {
                        lemma_lex_lt_irreflexive(name@);
                    }
                }
                lemma_seq_to_map_insert(s, pos as int, e);
            }
            self.entries.insert(pos, e);
            assert(names_sorted(self.entries@)) by {
                let t = self.entries@;
                assert forall|i: int, j: int| 0 <= i < j < t.len() implies lex_lt(
                    t[i].name@,
                    t[j].name@,
                ) by {
                    if i < pos {
                        assert(t[i] == s[i]);
                    }
                    if i > pos {
                        assert(t[i] == s[i - 1]);
                    }
                    if j < pos {
                        assert(t[j] == s[j]);
                    }
                    if j > pos {
                        assert(t[j] == s[j - 1]);
                    }
                }
            }
            assert(names_nonempty(self.entries@)) by {
                let t = self.entries@;
                assert forall|i: int| 0 <= i < t.len() implies t[i].name@.len() > 0 by {
                    if i < pos {
                        assert(t[i] == s[i]);
                    }
                    if i > pos {
                        assert(t[i] == s[i - 1]);
                    }
                }
            }
        }
    }

    /// Applies a whole batch of updates, or none of it. The batch is
    /// validated first — non-empty, no empty name, no repeated name —
    /// and only then applied; a rejected batch leaves the table
    /// exactly as it was.
    pub fn set_many(&mut self, batch: &Vec<Entry>) -> (r: Result<(), BatchError>)
        requires
            old(self).wf(),
        ensures
            final(self).wf(),
            match r {
                Ok(()) => batch_check(batch@) is None,
                Err(e) => batch_check(batch@) == Some(e),
            },
            r is Ok <==> batch_valid(batch@),
            r is Ok ==> final(self).as_map() == old(self).as_map().union_prefer_right(
                seq_to_map(batch@),
            ),
            r is Err ==> *final(self) == *old(self),
    {
        proof {
            lemma_batch_check_complete(batch@);
        }
        if batch.len() == 0 {
            return Err(BatchError::Empty);
        }
        // Validate the whole batch before touching the table.
        let mut i: usize = 0;
        while i < batch.len()
            invariant
                i <= batch.len(),
                batch@.len() > 0,
                batch_check_from(batch@, 0) == batch_check_from(batch@, i as int),
                *self == *old(self),
                old(self).wf(),
            decreases batch.len() - i,
        {
            if batch[i].name.len() == 0 {
                return Err(BatchError::EmptyName);
            }
            let mut j: usize = 0;
            while j < i
                invariant
                    j <= i,
                    i < batch.len(),
                    batch@.len() > 0,
                    batch_check_from(batch@, 0) == batch_check_from(batch@, i as int),
                    batch@[i as int].name@.len() > 0,
                    *self == *old(self),
                    old(self).wf(),
                    forall|t: int| 0 <= t < j ==> batch@[t].name@ != batch@[i as int].name@,
                decreases i - j,
            {
                if bytes_eq(&batch[j].name, &batch[i].name) {
                    return Err(BatchError::RepeatedName);
                }
                j = j + 1;
            }
            i = i + 1;
        }
        proof {
            lemma_sorted_distinct(self.entries@);
        }
        // Apply every entry; the names are distinct, so the order of
        // application within the batch does not matter.
        let ghost m0 = self.as_map();
        proof {
            lemma_union_empty_right(m0);
            assert(batch@.take(0) =~= Seq::<Entry>::empty());
        }
        let mut k: usize = 0;
        while k < batch.len()
            invariant
                k <= batch.len(),
                self.wf(),
                batch_valid(batch@),
                m0 == old(self).as_map(),
                self.as_map() == m0.union_prefer_right(seq_to_map(batch@.take(k as int))),
            decreases batch.len() - k,
        {
            let name = clone_bytes(&batch[k].name);
            let value = clone_bytes(&batch[k].value);
            self.insert(name, value);
            proof {
                let tk = batch@.take(k as int);
                let tk1 = batch@.take(k as int + 1);
                assert(tk1.drop_last() =~= tk);
                assert(tk1.last() == batch@[k as int]);
                lemma_union_insert_right(
                    m0,
                    seq_to_map(tk),
                    batch@[k as int].name@,
                    batch@[k as int].value@,
                );
            }
            k = k + 1;
        }
        proof {
            assert(batch@.take(batch@.len() as int) =~= batch@);
        }
        Ok(())
    }

    /// Snapshot read of every entry, in ascending name order.
    pub fn all(&self) -> (r: &Vec<Entry>)
        ensures
            r@ == self.entries@,
    {
        &self.entries
    }
}

} // verus!
