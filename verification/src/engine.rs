//! The ordered key-value engine, as this crate sees it.
//!
//! The split-check logic reads exactly two things from the storage engine:
//! for each column family an ordered run of `(key, value size)` records, and
//! a byte-size estimate over a key range. Both are modelled here as plain
//! values, so every step of the scan can be verified. Keys are held in their
//! stored, prefixed form.

use vstd::prelude::*;
use crate::lex::{
    bytes_le, bytes_lt, lemma_lex_asym, lemma_lex_lt_trans, lemma_lex_total, lex_le, lex_lt,
};

verus! {

/// Mathematical image of one stored record: its key and the byte size of
/// its value. The value bytes themselves are never read by a split check.
pub ghost struct EntryV {
    pub key: Seq<u8>,
    pub value_size: nat,
}

/// One stored record of a column family.
#[derive(Clone, Debug)]
pub struct CfEntry {
    pub key: Vec<u8>,
    pub value_size: usize,
}

impl View for CfEntry {
    type V = EntryV;

    open spec fn view(&self) -> EntryV {
        EntryV { key: self.key@, value_size: self.value_size as nat }
    }
}

/// The byte weight a record contributes to a region: key length plus value
/// size.
pub open spec fn entry_weight(e: EntryV) -> int {
    e.key.len() + e.value_size as int
}

/// Total byte weight of a run of records.
pub open spec fn seq_weight(s: Seq<EntryV>) -> int
    decreases s.len(),
{
    if s.len() == 0 {
        0
    } else {
        entry_weight(s[0]) + seq_weight(s.drop_first())
    }
}

/// `k` lies in the half-open range `[start, end)`.
pub open spec fn in_range(k: Seq<u8>, start: Seq<u8>, end: Seq<u8>) -> bool {
    lex_le(start, k) && lex_lt(k, end)
}

/// The records of `s` whose keys lie in `[start, end)`, in their original
/// order.
pub open spec fn range_of(s: Seq<EntryV>, start: Seq<u8>, end: Seq<u8>) -> Seq<EntryV>
    decreases s.len(),
{
    if s.len() == 0 {
        Seq::empty()
    } else {
        (if in_range(s[0].key, start, end) {
            seq![s[0]]
        } else {
            Seq::empty()
        }) + range_of(s.drop_first(), start, end)
    }
}

/// The records come in strictly increasing key order: how a column family
/// stores them.
pub open spec fn sorted_strict(s: Seq<EntryV>) -> bool {
    forall|i: int, j: int| 0 <= i < j < s.len() ==> lex_lt(#[trigger] s[i].key, #[trigger] s[j].key)
}

/// Weights are never negative.
pub proof fn lemma_seq_weight_nonneg(s: Seq<EntryV>)
    ensures
        seq_weight(s) >= 0,
    decreases s.len(),
{
    if s.len() > 0 {
        lemma_seq_weight_nonneg(s.drop_first());
    }
}

/// Weight adds over concatenation.
pub proof fn lemma_seq_weight_concat(a: Seq<EntryV>, b: Seq<EntryV>)
    ensures
        seq_weight(a + b) == seq_weight(a) + seq_weight(b),
    decreases a.len(),
{
    if a.len() == 0 {
        assert(a + b =~= b);
    } else {
        assert((a + b).drop_first() =~= a.drop_first() + b);
        lemma_seq_weight_concat(a.drop_first(), b);
    }
}

/// The weight of a single record.
pub proof fn lemma_seq_weight_singleton(e: EntryV)
    ensures
        seq_weight(seq![e]) == entry_weight(e),
{
    let s = seq![e];
    assert(s.drop_first() =~= Seq::<EntryV>::empty());
    assert(seq_weight(s) == entry_weight(s[0]) + seq_weight(s.drop_first()));
    assert(seq_weight(Seq::<EntryV>::empty()) == 0);
}

/// Range restriction distributes over concatenation.
pub proof fn lemma_range_of_concat(a: Seq<EntryV>, b: Seq<EntryV>, start: Seq<u8>, end: Seq<u8>)
    ensures
        range_of(a + b, start, end) == range_of(a, start, end) + range_of(b, start, end),
    decreases a.len(),
{
    if a.len() == 0 {
        assert(a + b =~= b);
        assert(range_of(a, start, end) + range_of(b, start, end) =~= range_of(b, start, end));
    } else {
        assert((a + b).drop_first() =~= a.drop_first() + b);
        lemma_range_of_concat(a.drop_first(), b, start, end);
        assert(range_of(a + b, start, end) =~= range_of(a, start, end) + range_of(b, start, end));
    }
}

/// Every record a range restriction keeps lies in the range.
pub proof fn lemma_range_of_in_range(s: Seq<EntryV>, start: Seq<u8>, end: Seq<u8>)
    ensures
        forall|i: int| 0 <= i < range_of(s, start, end).len() ==> in_range(
            #[trigger] range_of(s, start, end)[i].key,
            start,
            end,
        ),
    decreases s.len(),
{
    if s.len() > 0 {
        lemma_range_of_in_range(s.drop_first(), start, end);
        let r = range_of(s, start, end);
        let rr = range_of(s.drop_first(), start, end);
        let head: Seq<EntryV> = if in_range(s[0].key, start, end) {
            seq![s[0]]
        } else {
            Seq::empty()
        };
        assert forall|i: int| 0 <= i < r.len() implies in_range(
            #[trigger] r[i].key,
            start,
            end,
        ) by {
            if i >= head.len() {
                assert(r[i] == rr[i - head.len()]);
            } else {
                assert(r[i] == s[0]);
            }
        }
    }
}

/// A range restriction keeps only records of the original run.
pub proof fn lemma_range_of_membership(s: Seq<EntryV>, start: Seq<u8>, end: Seq<u8>)
    ensures
        forall|i: int| 0 <= i < range_of(s, start, end).len() ==> exists|j: int|
            0 <= j < s.len() && s[j] == #[trigger] range_of(s, start, end)[i],
    decreases s.len(),
{
    if s.len() > 0 {
        lemma_range_of_membership(s.drop_first(), start, end);
        assert forall|i: int| 0 <= i < range_of(s, start, end).len() implies exists|j: int|
            0 <= j < s.len() && s[j] == #[trigger] range_of(s, start, end)[i] by {
            let r = range_of(s, start, end);
            let head: Seq<EntryV> = if in_range(s[0].key, start, end) {
                seq![s[0]]
            } else {
                Seq::empty()
            };
            if i < head.len() {
                assert(s[0] == r[i]);
            } else {
                let rr = range_of(s.drop_first(), start, end);
                assert(rr[i - head.len()] == r[i]);
                let j0 = choose|j0: int| 0 <= j0 < s.drop_first().len() && s.drop_first()[j0]
                    == rr[i - head.len()];
                assert(s[j0 + 1] == r[i]);
            }
        }
    }
}

/// A range restriction of a strictly sorted run stays strictly sorted, and
/// its weight does not exceed the run's.
pub proof fn lemma_range_of_sorted_weight(s: Seq<EntryV>, start: Seq<u8>, end: Seq<u8>)
    requires
        sorted_strict(s),
    ensures
        sorted_strict(range_of(s, start, end)),
        seq_weight(range_of(s, start, end)) <= seq_weight(s),
    decreases s.len(),
{
    if s.len() == 0 {
    } else {
        let rest = s.drop_first();
        lemma_range_of_sorted_weight(rest, start, end);
        let head: Seq<EntryV> = if in_range(s[0].key, start, end) {
            seq![s[0]]
        } else {
            Seq::empty()
        };
        let rr = range_of(rest, start, end);
        let r = range_of(s, start, end);
        lemma_seq_weight_concat(head, rr);
        if in_range(s[0].key, start, end) {
            lemma_seq_weight_singleton(s[0]);
        }
        assert(seq_weight(head) <= entry_weight(s[0]));
        lemma_range_of_membership(rest, start, end);
        assert forall|i: int, j: int| 0 <= i < j < r.len() implies lex_lt(
            #[trigger] r[i].key,
            #[trigger] r[j].key,
        ) by {
            if i >= head.len() {
                assert(r[i] == rr[i - head.len()] && r[j] == rr[j - head.len()]);
            } else {
                assert(r[i] == s[0] && r[j] == rr[j - 1]);
                let j0 = choose|j0: int| 0 <= j0 < rest.len() && rest[j0] == rr[j - 1];
                assert(rest[j0] == s[j0 + 1]);
                assert(lex_lt(s[0].key, s[j0 + 1].key));
            }
        }
    }
}

/// Where a record with key `e.key` lands in a run: before the first record
/// whose key is not smaller, replacing it when the keys are equal.
pub open spec fn put_spec(s: Seq<EntryV>, e: EntryV) -> Seq<EntryV>
    decreases s.len(),
{
    if s.len() == 0 {
        seq![e]
    } else if lex_lt(e.key, s[0].key) {
        seq![e] + s
    } else if e.key == s[0].key {
        seq![e] + s.drop_first()
    } else {
        seq![s[0]] + put_spec(s.drop_first(), e)
    }
}

/// Unrolls `put_spec` at the insertion position `j`: everything before `j`
/// is smaller than the new key, and at `j` the run is split or a record with
/// an equal key is replaced.
pub proof fn lemma_put_spec_at(s: Seq<EntryV>, e: EntryV, j: int)
    requires
        0 <= j <= s.len(),
        forall|t: int| 0 <= t < j ==> lex_lt(#[trigger] s[t].key, e.key),
        j < s.len() ==> lex_le(e.key, s[j].key),
    ensures
        put_spec(s, e) == if j < s.len() && s[j].key == e.key {
            s.take(j) + seq![e] + s.skip(j + 1)
        } else {
            s.take(j) + seq![e] + s.skip(j)
        },
    decreases s.len(),
{
    if j == 0 {
        if s.len() == 0 {
            assert(put_spec(s, e) =~= s.take(0) + seq![e] + s.skip(0));
        } else if s[0].key == e.key {
            assert(s.take(0) + seq![e] + s.skip(1) =~= seq![e] + s.drop_first());
        } else {
            lemma_lex_total(e.key, s[0].key);
            assert(lex_lt(e.key, s[0].key));
            assert(s.take(0) + seq![e] + s.skip(0) =~= seq![e] + s);
        }
    } else {
        let rest = s.drop_first();
        lemma_lex_asym(s[0].key, e.key);
        assert(forall|t: int| 0 <= t < j - 1 ==> lex_lt(#[trigger] rest[t].key, e.key));
        lemma_put_spec_at(rest, e, j - 1);
        if j < s.len() && s[j].key == e.key {
            assert(rest[j - 1].key == e.key);
            assert(s.take(j) + seq![e] + s.skip(j + 1) =~= seq![s[0]] + (rest.take(j - 1)
                + seq![e] + rest.skip(j)));
        } else {
            assert(s.take(j) + seq![e] + s.skip(j) =~= seq![s[0]] + (rest.take(j - 1) + seq![e]
                + rest.skip(j - 1)));
        }
    }
}

/// Inserts or replaces one record in a sorted run, keeping it sorted.
fn put_into(v: &mut Vec<CfEntry>, key: Vec<u8>, value_size: usize)
    requires
        sorted_strict(old(v)@.map_values(|e: CfEntry| e@)),
    ensures
        final(v)@.map_values(|e: CfEntry| e@) == put_spec(
            old(v)@.map_values(|e: CfEntry| e@),
            EntryV { key: key@, value_size: value_size as nat },
        ),
        sorted_strict(final(v)@.map_values(|e: CfEntry| e@)),
        seq_weight(final(v)@.map_values(|e: CfEntry| e@)) <= seq_weight(
            old(v)@.map_values(|e: CfEntry| e@),
        ) + key@.len() + value_size,
{
    let ghost s = v@.map_values(|e: CfEntry| e@);
    let ghost ev = EntryV { key: key@, value_size: value_size as nat };
    let mut i: usize = 0;
    let mut stop = false;
    while !stop
        invariant
            i <= v.len(),
            ev == (EntryV { key: key@, value_size: value_size as nat }),
            v@.map_values(|e: CfEntry| e@) == s,
            sorted_strict(s),
            forall|t: int| 0 <= t < i ==> lex_lt(#[trigger] s[t].key, ev.key),
            stop ==> i == v.len() || lex_le(ev.key, s[i as int].key),
        decreases v.len() - i + (if stop {
            0int
        } else {
            1int
        }),
    {
        if i >= v.len() {
            stop = true;
        } else {
            proof {
                assert(s[i as int] == v@[i as int]@);
            }
            if !bytes_lt(&v[i].key, &key) {
                stop = true;
            } else {
                i = i + 1;
            }
        }
    }
    let same = if i < v.len() {
        !bytes_lt(&key, &v[i].key)
    } else {
        false
    };
    proof {
        if i < s.len() {
            lemma_lex_total(ev.key, s[i as int].key);
        }
        lemma_put_spec_at(s, ev, i as int);
    }
    if same {
        proof {
            assert(s[i as int].key == ev.key);
        }
        v.set(i, CfEntry { key, value_size });
        proof {
            let f = v@.map_values(|e: CfEntry| e@);
            assert(f =~= s.take(i as int) + seq![ev] + s.skip(i as int + 1));
            lemma_weight_and_order_after_put(s, ev, i as int, true);
        }
    } else {
        v.insert(i, CfEntry { key, value_size });
        proof {
            let f = v@.map_values(|e: CfEntry| e@);
            assert(f =~= s.take(i as int) + seq![ev] + s.skip(i as int));
            lemma_weight_and_order_after_put(s, ev, i as int, false);
        }
    }
}

/// Order and weight of a run after one record was put at position `j`.
proof fn lemma_weight_and_order_after_put(s: Seq<EntryV>, e: EntryV, j: int, replaced: bool)
    requires
        sorted_strict(s),
        0 <= j <= s.len(),
        forall|t: int| 0 <= t < j ==> lex_lt(#[trigger] s[t].key, e.key),
        replaced ==> j < s.len() && s[j].key == e.key,
        !replaced && j < s.len() ==> lex_le(e.key, s[j].key) && s[j].key != e.key,
    ensures
        sorted_strict(
            if replaced {
                s.take(j) + seq![e] + s.skip(j + 1)
            } else {
                s.take(j) + seq![e] + s.skip(j)
            },
        ),
        seq_weight(
            if replaced {
                s.take(j) + seq![e] + s.skip(j + 1)
            } else {
                s.take(j) + seq![e] + s.skip(j)
            },
        ) <= seq_weight(s) + entry_weight(e),
{
    let skip_at = if replaced {
        j + 1
    } else {
        j
    };
    let f = s.take(j) + seq![e] + s.skip(skip_at);
    assert forall|t1: int, t2: int| 0 <= t1 < t2 < f.len() implies lex_lt(
        #[trigger] f[t1].key,
        #[trigger] f[t2].key,
    ) by {
        let a = if t1 < j {
            s[t1]
        } else if t1 == j {
            e
        } else {
            s[t1 - j - 1 + skip_at]
        };
        let b = if t2 < j {
            s[t2]
        } else if t2 == j {
            e
        } else {
            s[t2 - j - 1 + skip_at]
        };
        assert(f[t1] == a && f[t2] == b);
        if t1 == j && t2 > j {
            let k = t2 - j - 1 + skip_at;
            if replaced {
                assert(lex_lt(s[j].key, s[k].key));
            } else {
                lemma_lex_total(e.key, s[j].key);
                if j < k {
                    assert(lex_lt(s[j].key, s[k].key));
                    lemma_lex_lt_trans(e.key, s[j].key, s[k].key);
                }
            }
        } else if t1 < j && t2 > j {
            let k = t2 - j - 1 + skip_at;
            assert(lex_lt(s[t1].key, s[k].key));
        } else if t1 < j && t2 == j {
            assert(lex_lt(s[t1].key, e.key));
        }
    }
    lemma_seq_weight_concat(s.take(j) + seq![e], s.skip(skip_at));
    lemma_seq_weight_concat(s.take(j), seq![e]);
    lemma_seq_weight_singleton(e);
    lemma_seq_weight_concat(s.take(j), s.skip(j));
    assert(s.take(j) + s.skip(j) =~= s);
    if replaced {
        assert(s.skip(j) =~= seq![s[j]] + s.skip(j + 1));
        lemma_seq_weight_concat(seq![s[j]], s.skip(j + 1));
        lemma_seq_weight_singleton(s[j]);
    }
}

/// Names of the engine's column families. The two large ones dominate a
/// region's footprint; the lock family stays small and is left out of size
/// accounting.
#[derive(Clone, Copy, PartialEq, Eq, Structural, Debug)]
pub enum CfName {
    Default,
    Lock,
    Write,
}

/// The ordered list of column families a split check scans.
pub open spec fn large_cfs_spec() -> Seq<CfName> {
    seq![CfName::Default, CfName::Write]
}

/// Executable copy of `large_cfs_spec`.
pub fn large_cfs() -> (r: Vec<CfName>)
    ensures
        r@ == large_cfs_spec(),
{
    let mut v: Vec<CfName> = Vec::new();
    v.push(CfName::Default);
    v.push(CfName::Write);
    proof {
        assert(v@ =~= large_cfs_spec());
    }
    v
}

/// Every column family of the engine, in its fixed order.
pub fn all_cfs() -> (r: Vec<CfName>)
    ensures
        r@ == seq![CfName::Default, CfName::Lock, CfName::Write],
{
    let mut v: Vec<CfName> = Vec::new();
    v.push(CfName::Default);
    v.push(CfName::Lock);
    v.push(CfName::Write);
    proof {
        assert(v@ =~= seq![CfName::Default, CfName::Lock, CfName::Write]);
    }
    v
}

/// The engine: one ordered run of records per column family, holding keys
/// in stored (prefixed) form.
pub struct Engine {
    pub default_cf: Vec<CfEntry>,
    pub lock_cf: Vec<CfEntry>,
    pub write_cf: Vec<CfEntry>,
}

impl Engine {
    /// The records of one column family, as a mathematical sequence.
    pub open spec fn cf_view(self, c: CfName) -> Seq<EntryV> {
        match c {
            CfName::Default => self.default_cf@.map_values(|e: CfEntry| e@),
            CfName::Lock => self.lock_cf@.map_values(|e: CfEntry| e@),
            CfName::Write => self.write_cf@.map_values(|e: CfEntry| e@),
        }
    }

    /// Total byte weight stored across all column families.
    pub open spec fn total_weight(self) -> int {
        seq_weight(self.cf_view(CfName::Default)) + seq_weight(self.cf_view(CfName::Lock))
            + seq_weight(self.cf_view(CfName::Write))
    }

    /// Well-formedness: each family strictly sorted by key, and the whole
    /// store small enough that byte counts fit the machine.
    pub open spec fn wf(self) -> bool {
        &&& sorted_strict(self.cf_view(CfName::Default))
        &&& sorted_strict(self.cf_view(CfName::Lock))
        &&& sorted_strict(self.cf_view(CfName::Write))
        &&& self.total_weight() <= u64::MAX
    }

    /// An empty engine.
    pub fn new() -> (r: Engine)
        ensures
            r.wf(),
            forall|c: CfName| #[trigger] r.cf_view(c) == Seq::<EntryV>::empty(),
    {
        let r = Engine { default_cf: Vec::new(), lock_cf: Vec::new(), write_cf: Vec::new() };
        proof {
            assert forall|c: CfName| #[trigger] r.cf_view(c) == Seq::<EntryV>::empty() by {
                assert(r.cf_view(c) =~= Seq::<EntryV>::empty());
            }
        }
        r
    }

    /// Borrows one column family.
    pub fn cf(&self, c: CfName) -> (r: &Vec<CfEntry>)
        ensures
            r@.map_values(|e: CfEntry| e@) == self.cf_view(c),
    {
        match c {
            CfName::Default => &self.default_cf,
            CfName::Lock => &self.lock_cf,
            CfName::Write => &self.write_cf,
        }
    }

    /// Stores one record: inserted at its ordered position, or replacing
    /// the record that already carries the key.
    pub fn put_cf(&mut self, c: CfName, key: Vec<u8>, value_size: usize)
        requires
            old(self).wf(),
            old(self).total_weight() + key@.len() + value_size <= u64::MAX,
        ensures
            final(self).wf(),
            final(self).cf_view(c) == put_spec(
                old(self).cf_view(c),
                EntryV { key: key@, value_size: value_size as nat },
            ),
            forall|c2: CfName| c2 != c ==> final(self).cf_view(c2) == old(self).cf_view(c2),
            final(self).total_weight() <= old(self).total_weight() + key@.len() + value_size,
    {
        match c {
            CfName::Default => put_into(&mut self.default_cf, key, value_size),
            CfName::Lock => put_into(&mut self.lock_cf, key, value_size),
            CfName::Write => put_into(&mut self.write_cf, key, value_size),
        }
    }

    /// Byte weight stored in `[start, end)` across the large column
    /// families: the engine's size estimate for a region. In this model the
    /// estimate is exact.
    pub open spec fn approx_size_spec(self, start: Seq<u8>, end: Seq<u8>) -> int {
        seq_weight(range_of(self.cf_view(CfName::Default), start, end)) + seq_weight(
            range_of(self.cf_view(CfName::Write), start, end),
        )
    }

    /// Estimates the byte size of the range `[start, end)`.
    pub fn approximate_size(&self, start: &Vec<u8>, end: &Vec<u8>) -> (r: u64)
        requires
            self.wf(),
        ensures
            r == self.approx_size_spec(start@, end@),
    {
        proof {
            lemma_range_of_sorted_weight(self.cf_view(CfName::Default), start@, end@);
            lemma_range_of_sorted_weight(self.cf_view(CfName::Write), start@, end@);
            lemma_seq_weight_nonneg(self.cf_view(CfName::Lock));
            lemma_seq_weight_nonneg(range_of(self.cf_view(CfName::Default), start@, end@));
            lemma_seq_weight_nonneg(range_of(self.cf_view(CfName::Write), start@, end@));
        }
        let a = range_weight(&self.default_cf, start, end);
        let b = range_weight(&self.write_cf, start, end);
        a + b
    }
}

/// Byte weight of the records of a sorted run whose keys lie in
/// `[start, end)`.
fn range_weight(v: &Vec<CfEntry>, start: &Vec<u8>, end: &Vec<u8>) -> (r: u64)
    requires
        sorted_strict(v@.map_values(|e: CfEntry| e@)),
        seq_weight(v@.map_values(|e: CfEntry| e@)) <= u64::MAX,
    ensures
        r == seq_weight(range_of(v@.map_values(|e: CfEntry| e@), start@, end@)),
{
    let ghost s = v@.map_values(|e: CfEntry| e@);
    let mut acc: u64 = 0;
    let mut i: usize = 0;
    proof {
        assert(s.take(0) =~= Seq::<EntryV>::empty());
    }
    while i < v.len()
        invariant
            i <= v.len(),
            s == v@.map_values(|e: CfEntry| e@),
            sorted_strict(s),
            seq_weight(s) <= u64::MAX,
            acc == seq_weight(range_of(s.take(i as int), start@, end@)),
            acc <= seq_weight(s.take(i as int)),
        decreases v.len() - i,
    {
        let ghost prefix = s.take(i as int);
        let ghost e = s[i as int];
        proof {
            assert(s.take(i + 1) =~= prefix + seq![e]);
            lemma_range_of_concat(prefix, seq![e], start@, end@);
            lemma_seq_weight_concat(prefix, seq![e]);
            lemma_seq_weight_singleton(e);
            assert(seq![e].drop_first() =~= Seq::<EntryV>::empty());
            lemma_seq_weight_concat(range_of(prefix, start@, end@), range_of(seq![e], start@, end@));
            assert(s =~= s.take(i + 1) + s.skip(i + 1));
            lemma_seq_weight_concat(s.take(i + 1), s.skip(i + 1));
            lemma_seq_weight_nonneg(s.skip(i + 1));
            assert(e == v@[i as int]@);
        }
        let keep = bytes_le(start, &v[i].key) && bytes_lt(&v[i].key, end);
        if keep {
            proof {
                assert(range_of(Seq::<EntryV>::empty(), start@, end@) =~= Seq::<EntryV>::empty());
                assert(range_of(seq![e], start@, end@) =~= seq![e]);
            }
            acc = acc + (v[i].key.len() as u64 + v[i].value_size as u64);
        } else {
            proof {
                assert(range_of(Seq::<EntryV>::empty(), start@, end@) =~= Seq::<EntryV>::empty());
                assert(range_of(seq![e], start@, end@) =~= Seq::<EntryV>::empty());
            }
        }
        i = i + 1;
    }
    proof {
        assert(s.take(s.len() as int) =~= s);
    }
    acc
}

} // verus!
