//! The streaming k-way merge across column families.
//!
//! One range-restricted stream per column family is merged into a single
//! run: each step emits the smallest front among the streams. The spec
//! function `merged_seq` is that run; the iterator below walks it. Two laws
//! hold of the merge and are proved here: the emitted keys never decrease
//! and stay inside the range, and the emitted records are exactly the
//! records of the streams, with one emission per column family that holds a
//! key.

use vstd::prelude::*;
use vstd::multiset::Multiset;
use vstd::seq_lib::group_to_multiset_ensures;
use vstd::seq_lib::lemma_multiset_commutative;
use crate::engine::{
    entry_weight, in_range, lemma_range_of_concat, range_of, seq_weight, sorted_strict, CfEntry,
    CfName, Engine, EntryV,
};
use crate::keys::copy_bytes;
use crate::lex::{
    bytes_le, bytes_lt, lemma_lex_irrefl, lemma_lex_le_trans, lemma_lex_lt_implies_le,
    lemma_lex_lt_le_trans, lex_le, lex_lt,
};

verus! {

/// How many records all streams hold together.
pub open spec fn all_len(ss: Seq<Seq<EntryV>>) -> nat
    decreases ss.len(),
{
    if ss.len() == 0 {
        0
    } else {
        ss[0].len() + all_len(ss.drop_first())
    }
}

/// Total byte weight held by all streams together.
pub open spec fn streams_weight(ss: Seq<Seq<EntryV>>) -> int
    decreases ss.len(),
{
    if ss.len() == 0 {
        0
    } else {
        seq_weight(ss[0]) + streams_weight(ss.drop_first())
    }
}

/// All records of all streams, as one multiset.
pub open spec fn streams_mset(ss: Seq<Seq<EntryV>>) -> Multiset<EntryV>
    decreases ss.len(),
{
    if ss.len() == 0 {
        Multiset::empty()
    } else {
        ss[0].to_multiset().add(streams_mset(ss.drop_first()))
    }
}

/// Scans the streams from position `i` on, carrying the best index seen so
/// far (`-1` for none): the index of the first stream whose front key is
/// smallest, or `-1` when every stream is exhausted.
pub open spec fn pick_from(ss: Seq<Seq<EntryV>>, i: int, best: int) -> int
    decreases ss.len() - i,
{
    if i < 0 || i >= ss.len() {
        best
    } else {
        let better = ss[i].len() > 0 && (best < 0 || lex_lt(ss[i][0].key, ss[best][0].key));
        pick_from(
            ss,
            i + 1,
            if better {
                i
            } else {
                best
            },
        )
    }
}

/// The stream whose front is emitted next.
pub open spec fn pick(ss: Seq<Seq<EntryV>>) -> int {
    pick_from(ss, 0, -1)
}

proof fn lemma_pick_from_props(ss: Seq<Seq<EntryV>>, i: int, best: int)
    requires
        0 <= i <= ss.len(),
        -1 <= best < i,
        best >= 0 ==> ss[best].len() > 0,
        best == -1 ==> forall|j: int| 0 <= j < i ==> (#[trigger] ss[j]).len() == 0,
        best >= 0 ==> forall|j: int| 0 <= j < i && (#[trigger] ss[j]).len() > 0 ==> lex_le(
            ss[best][0].key,
            ss[j][0].key,
        ),
    ensures
        ({
            let p = pick_from(ss, i, best);
            &&& -1 <= p < ss.len()
            &&& (p == -1 ==> forall|j: int| 0 <= j < ss.len() ==> (#[trigger] ss[j]).len() == 0)
            &&& (p >= 0 ==> 0 <= p < ss.len() && ss[p].len() > 0 && forall|j: int|
                0 <= j < ss.len() && (#[trigger] ss[j]).len() > 0 ==> lex_le(
                    ss[p][0].key,
                    ss[j][0].key,
                ))
        }),
    decreases ss.len() - i,
{
    if i < ss.len() {
        let better = ss[i].len() > 0 && (best < 0 || lex_lt(ss[i][0].key, ss[best][0].key));
        if better {
            lemma_lex_irrefl(ss[i][0].key);
            if best >= 0 {
                assert forall|j: int| 0 <= j < i + 1 && (#[trigger] ss[j]).len() > 0 implies lex_le(
                    ss[i][0].key,
                    ss[j][0].key,
                ) by {
                    if j < i {
                        lemma_lex_lt_le_trans(ss[i][0].key, ss[best][0].key, ss[j][0].key);
                        lemma_lex_lt_implies_le(ss[i][0].key, ss[j][0].key);
                    }
                }
            }
            lemma_pick_from_props(ss, i + 1, i);
        } else {
            if best >= 0 && ss[i].len() > 0 {
                assert(lex_le(ss[best][0].key, ss[i][0].key));
            }
            lemma_pick_from_props(ss, i + 1, best);
        }
    }
}

/// What `pick` guarantees: `-1` exactly when every stream is exhausted,
/// otherwise a live stream whose front key is no later than any other
/// front.
pub proof fn lemma_pick_props(ss: Seq<Seq<EntryV>>)
    ensures
        -1 <= pick(ss) < ss.len(),
        pick(ss) == -1 ==> forall|j: int| 0 <= j < ss.len() ==> (#[trigger] ss[j]).len() == 0,
        pick(ss) >= 0 ==> 0 <= pick(ss) < ss.len() && ss[pick(ss)].len() > 0 && forall|j: int|
            0 <= j < ss.len() && (#[trigger] ss[j]).len() > 0 ==> lex_le(
                ss[pick(ss)][0].key,
                ss[j][0].key,
            ),
{
    lemma_pick_from_props(ss, 0, -1);
}

/// Consuming one front removes exactly one record.
pub proof fn lemma_all_len_update(ss: Seq<Seq<EntryV>>, k: int)
    requires
        0 <= k < ss.len(),
        ss[k].len() > 0,
    ensures
        all_len(ss.update(k, ss[k].drop_first())) == all_len(ss) - 1,
    decreases ss.len(),
{
    let ss2 = ss.update(k, ss[k].drop_first());
    if k == 0 {
        assert(ss2.drop_first() =~= ss.drop_first());
    } else {
        assert(ss2.drop_first() =~= ss.drop_first().update(k - 1, ss.drop_first()[k - 1]
            .drop_first()));
        lemma_all_len_update(ss.drop_first(), k - 1);
    }
}

/// Consuming one front takes exactly its weight.
pub proof fn lemma_streams_weight_update(ss: Seq<Seq<EntryV>>, k: int)
    requires
        0 <= k < ss.len(),
        ss[k].len() > 0,
    ensures
        streams_weight(ss.update(k, ss[k].drop_first())) == streams_weight(ss) - entry_weight(
            ss[k][0],
        ),
    decreases ss.len(),
{
    let ss2 = ss.update(k, ss[k].drop_first());
    if k == 0 {
        assert(ss2.drop_first() =~= ss.drop_first());
    } else {
        assert(ss2.drop_first() =~= ss.drop_first().update(k - 1, ss.drop_first()[k - 1]
            .drop_first()));
        lemma_streams_weight_update(ss.drop_first(), k - 1);
    }
}

/// Consuming one front removes exactly that record from the multiset.
pub proof fn lemma_streams_mset_update(ss: Seq<Seq<EntryV>>, k: int)
    requires
        0 <= k < ss.len(),
        ss[k].len() > 0,
    ensures
        streams_mset(ss) =~= streams_mset(ss.update(k, ss[k].drop_first())).insert(ss[k][0]),
    decreases ss.len(),
{
    broadcast use group_to_multiset_ensures;

    let ss2 = ss.update(k, ss[k].drop_first());
    if k == 0 {
        assert(ss2.drop_first() =~= ss.drop_first());
        assert(ss[0].remove(0) =~= ss[0].drop_first());
        assert(ss[0].to_multiset().remove(ss[0][0]) =~= ss[0].drop_first().to_multiset());
        assert(ss[0].contains(ss[0][0]));
    } else {
        assert(ss2.drop_first() =~= ss.drop_first().update(k - 1, ss.drop_first()[k - 1]
            .drop_first()));
        lemma_streams_mset_update(ss.drop_first(), k - 1);
    }
}

/// Every record counted by the streams' multiset sits in one of them.
proof fn lemma_streams_mset_member(ss: Seq<Seq<EntryV>>, x: EntryV)
    requires
        streams_mset(ss).count(x) > 0,
    ensures
        exists|k: int, j: int| 0 <= k < ss.len() && 0 <= j < ss[k].len() && #[trigger] ss[k][j]
            == x,
    decreases ss.len(),
{
    broadcast use group_to_multiset_ensures;

    if ss.len() > 0 {
        if ss[0].to_multiset().count(x) > 0 {
            assert(ss[0].contains(x));
            let j = choose|j: int| 0 <= j < ss[0].len() && ss[0][j] == x;
            assert(0 <= 0 < ss.len() && 0 <= j < ss[0].len() && ss[0][j] == x);
        } else {
            lemma_streams_mset_member(ss.drop_first(), x);
            let (k0, j0) = choose|k0: int, j0: int|
                0 <= k0 < ss.drop_first().len() && 0 <= j0 < ss.drop_first()[k0].len()
                    && #[trigger] ss.drop_first()[k0][j0] == x;
            assert(ss[k0 + 1][j0] == x);
        }
    }
}

/// The merged run: each step emits the smallest front among the streams
/// until all of them are exhausted.
pub open spec fn merged_seq(ss: Seq<Seq<EntryV>>) -> Seq<EntryV>
    decreases all_len(ss),
    via merged_seq_dec
{
    let p = pick(ss);
    if p < 0 {
        Seq::empty()
    } else {
        seq![ss[p][0]] + merged_seq(ss.update(p, ss[p].drop_first()))
    }
}

#[via_fn]
proof fn merged_seq_dec(ss: Seq<Seq<EntryV>>) {
    let p = pick(ss);
    if p >= 0 {
        lemma_pick_props(ss);
        lemma_all_len_update(ss, p);
    }
}

/// All streams exhausted means the merged run is over.
pub proof fn lemma_merged_empty(ss: Seq<Seq<EntryV>>)
    requires
        forall|j: int| 0 <= j < ss.len() ==> (#[trigger] ss[j]).len() == 0,
    ensures
        merged_seq(ss) == Seq::<EntryV>::empty(),
        streams_mset(ss) =~= Multiset::<EntryV>::empty(),
    decreases ss.len(),
{
    broadcast use group_to_multiset_ensures;

    if pick(ss) >= 0 {
        lemma_pick_props(ss);
    }
    if ss.len() > 0 {
        lemma_merged_empty(ss.drop_first());
        assert(ss[0].to_multiset().len() == 0);
    }
}

/// The merged run carries the same byte weight as the streams.
pub proof fn lemma_merged_weight(ss: Seq<Seq<EntryV>>)
    ensures
        seq_weight(merged_seq(ss)) == streams_weight(ss),
    decreases all_len(ss),
{
    let p = pick(ss);
    lemma_pick_props(ss);
    if p < 0 {
        lemma_merged_empty_weight(ss);
    } else {
        lemma_all_len_update(ss, p);
        lemma_streams_weight_update(ss, p);
        let rest = ss.update(p, ss[p].drop_first());
        lemma_merged_weight(rest);
        crate::engine::lemma_seq_weight_concat(seq![ss[p][0]], merged_seq(rest));
        crate::engine::lemma_seq_weight_singleton(ss[p][0]);
    }
}

proof fn lemma_merged_empty_weight(ss: Seq<Seq<EntryV>>)
    requires
        forall|j: int| 0 <= j < ss.len() ==> (#[trigger] ss[j]).len() == 0,
    ensures
        streams_weight(ss) == 0,
    decreases ss.len(),
{
    if ss.len() > 0 {
        lemma_merged_empty_weight(ss.drop_first());
    }
}

/// Totality of the merge: the records of the merged run are exactly the
/// records of the streams, as multisets. A key present in several column
/// families is emitted once per family.
pub proof fn lemma_merged_totality(ss: Seq<Seq<EntryV>>)
    ensures
        merged_seq(ss).to_multiset() =~= streams_mset(ss),
    decreases all_len(ss),
{
    broadcast use group_to_multiset_ensures;

    let p = pick(ss);
    lemma_pick_props(ss);
    if p < 0 {
        lemma_merged_empty(ss);
    } else {
        lemma_all_len_update(ss, p);
        lemma_streams_mset_update(ss, p);
        let rest = ss.update(p, ss[p].drop_first());
        lemma_merged_totality(rest);
        lemma_multiset_commutative(seq![ss[p][0]], merged_seq(rest));
        assert(seq![ss[p][0]].to_multiset() =~= Multiset::<EntryV>::empty().insert(ss[p][0])) by {
            assert(seq![ss[p][0]] =~= Seq::<EntryV>::empty().push(ss[p][0]));
        }
    }
}

/// The emitted keys never decrease.
pub open spec fn sorted_le(s: Seq<EntryV>) -> bool {
    forall|i: int, j: int| 0 <= i <= j < s.len() ==> lex_le(#[trigger] s[i].key, #[trigger] s[j].key)
}

/// All keys of a run lie in `[start, end)`.
pub open spec fn all_in_range(s: Seq<EntryV>, start: Seq<u8>, end: Seq<u8>) -> bool {
    forall|i: int| 0 <= i < s.len() ==> in_range(#[trigger] s[i].key, start, end)
}

/// Merge order: over sorted streams that lie in `[start, end)`, the merged
/// run is non-decreasing in key and every emitted key lies in the range.
pub proof fn lemma_merged_order(ss: Seq<Seq<EntryV>>, start: Seq<u8>, end: Seq<u8>)
    requires
        forall|k: int| 0 <= k < ss.len() ==> sorted_strict(#[trigger] ss[k]),
        forall|k: int| 0 <= k < ss.len() ==> all_in_range(#[trigger] ss[k], start, end),
    ensures
        sorted_le(merged_seq(ss)),
        all_in_range(merged_seq(ss), start, end),
    decreases all_len(ss),
{
    broadcast use group_to_multiset_ensures;

    let p = pick(ss);
    lemma_pick_props(ss);
    if p >= 0 {
        lemma_all_len_update(ss, p);
        let rest = ss.update(p, ss[p].drop_first());
        assert forall|k: int| 0 <= k < rest.len() implies sorted_strict(#[trigger] rest[k])
            && all_in_range(rest[k], start, end) by {
            if k == p {
                assert(forall|t: int| 0 <= t < rest[k].len() ==> rest[k][t] == ss[p][t + 1]);
            }
        }
        lemma_merged_order(rest, start, end);
        lemma_merged_totality(rest);
        let e = ss[p][0];
        let m = merged_seq(ss);
        let mr = merged_seq(rest);
        // the front emitted now is no later than anything emitted afterwards
        assert forall|t: int| 0 <= t < mr.len() implies lex_le(e.key, mr[t].key) by {
            assert(mr.contains(mr[t]));
            assert(mr.to_multiset().count(mr[t]) > 0);
            lemma_streams_mset_member(rest, mr[t]);
            let (k0, j0) = choose|k0: int, j0: int|
                0 <= k0 < rest.len() && 0 <= j0 < rest[k0].len() && #[trigger] rest[k0][j0]
                    == mr[t];
            if k0 == p {
                assert(rest[k0][j0] == ss[p][j0 + 1]);
                lemma_lex_lt_implies_le(ss[p][0].key, ss[p][j0 + 1].key);
            } else {
                assert(lex_le(e.key, rest[k0][0].key));
                if j0 > 0 {
                    lemma_lex_lt_implies_le(rest[k0][0].key, rest[k0][j0].key);
                    lemma_lex_le_trans(e.key, rest[k0][0].key, rest[k0][j0].key);
                }
            }
        }
        assert forall|i: int, j: int| 0 <= i <= j < m.len() implies lex_le(
            #[trigger] m[i].key,
            #[trigger] m[j].key,
        ) by {
            if i == 0 {
                if j > 0 {
                    assert(m[j] == mr[j - 1]);
                } else {
                    lemma_lex_irrefl(e.key);
                }
            } else {
                assert(m[i] == mr[i - 1] && m[j] == mr[j - 1]);
            }
        }
        assert forall|i: int| 0 <= i < m.len() implies in_range(#[trigger] m[i].key, start, end) by {
            if i == 0 {
                assert(in_range(ss[p][0].key, start, end));
            } else {
                assert(m[i] == mr[i - 1]);
            }
        }
    }
}

/// One emission of the merge: an owned copy of the key, the index of the
/// column family it came from, and the byte size of its value.
pub struct KeyEntry {
    pub key: Option<Vec<u8>>,
    pub pos: usize,
    pub value_size: usize,
}

impl KeyEntry {
    /// The record this emission stands for.
    pub open spec fn kv(self) -> EntryV {
        EntryV {
            key: match self.key {
                Some(k) => k@,
                None => Seq::empty(),
            },
            value_size: self.value_size as nat,
        }
    }

    /// A fresh emission holding `key`.
    pub fn new(key: Vec<u8>, pos: usize, value_size: usize) -> (r: KeyEntry)
        ensures
            r.key is Some,
            r.pos == pos,
            r.value_size == value_size,
            r.kv() == (EntryV { key: key@, value_size: value_size as nat }),
    {
        KeyEntry { key: Some(key), pos, value_size }
    }

    /// Moves the key out, leaving this entry empty.
    pub fn take(&mut self) -> (r: KeyEntry)
        requires
            old(self).key is Some,
        ensures
            r.key is Some,
            r.pos == old(self).pos,
            r.value_size == old(self).value_size,
            r.kv() == old(self).kv(),
            final(self).key is None,
            final(self).pos == old(self).pos,
            final(self).value_size == old(self).value_size,
    {
        let k = self.key.take();
        KeyEntry::new(k.unwrap(), self.pos, self.value_size)
    }
}

/// The records a run of emissions stands for.
pub open spec fn stream_view(s: Seq<KeyEntry>) -> Seq<EntryV> {
    s.map_values(|e: KeyEntry| e.kv())
}

/// Every emission of the run holds a key and names stream `pos`.
pub open spec fn stream_wf(s: Seq<KeyEntry>, pos: int) -> bool {
    forall|j: int| 0 <= j < s.len() ==> (#[trigger] s[j]).key is Some && s[j].pos == pos
}

/// The streaming k-way merge. Holds one range-restricted stream per column
/// family and emits the smallest front on each call of `next`, so the
/// emitted run is exactly `merged_seq` of what remains.
pub struct MergedIterator {
    pub streams: Vec<Vec<KeyEntry>>,
}

impl MergedIterator {
    /// What each stream still holds.
    pub open spec fn remaining(self) -> Seq<Seq<EntryV>> {
        self.streams@.map_values(|v: Vec<KeyEntry>| stream_view(v@))
    }

    /// The run this iterator will emit from here on.
    pub open spec fn merged(self) -> Seq<EntryV> {
        merged_seq(self.remaining())
    }

    pub open spec fn wf(self) -> bool {
        forall|k: int| 0 <= k < self.streams@.len() ==> stream_wf(
            (#[trigger] self.streams@[k])@,
            k,
        )
    }

    /// Opens one range-bounded stream per column family, positioned at
    /// `start_key`. The cache flag of the stored engine is irrelevant to
    /// this model: scans read no shared cache.
    pub fn new(
        engine: &Engine,
        cfs: &Vec<CfName>,
        start_key: &Vec<u8>,
        end_key: &Vec<u8>,
        _fill_cache: bool,
    ) -> (it: MergedIterator)
        requires
            engine.wf(),
        ensures
            it.wf(),
            it.remaining().len() == cfs@.len(),
            forall|k: int| 0 <= k < cfs@.len() ==> it.remaining()[k] == range_of(
                engine.cf_view(cfs@[k]),
                start_key@,
                end_key@,
            ),
    {
        let mut streams: Vec<Vec<KeyEntry>> = Vec::new();
        let mut k: usize = 0;
        while k < cfs.len()
            invariant
                k <= cfs@.len(),
                streams@.len() == k,
                engine.wf(),
                forall|t: int| 0 <= t < k ==> stream_view((#[trigger] streams@[t])@) == range_of(
                    engine.cf_view(cfs@[t]),
                    start_key@,
                    end_key@,
                ),
                forall|t: int| 0 <= t < k ==> stream_wf((#[trigger] streams@[t])@, t),
            decreases cfs@.len() - k,
        {
            let cf = cfs[k];
            let v = engine.cf(cf);
            let ghost s = engine.cf_view(cfs@[k as int]);
            let mut stream: Vec<KeyEntry> = Vec::new();
            let mut j: usize = 0;
            proof {
                assert(s.take(0) =~= Seq::<EntryV>::empty());
                assert(stream_view(stream@) =~= range_of(s.take(0), start_key@, end_key@));
            }
            while j < v.len()
                invariant
                    j <= v@.len(),
                    v@.map_values(|e: CfEntry| e@) == s,
                    k < cfs@.len(),
                    stream_view(stream@) == range_of(s.take(j as int), start_key@, end_key@),
                    stream_wf(stream@, k as int),
                decreases v@.len() - j,
            {
                proof {
                    assert(s[j as int] == v@[j as int]@);
                    assert(s.take(j + 1) =~= s.take(j as int) + seq![s[j as int]]);
                    lemma_range_of_concat(s.take(j as int), seq![s[j as int]], start_key@, end_key@);
                    assert(seq![s[j as int]].drop_first() =~= Seq::<EntryV>::empty());
                    assert(range_of(Seq::<EntryV>::empty(), start_key@, end_key@)
                        =~= Seq::<EntryV>::empty());
                }
                let keep = bytes_le(start_key, &v[j].key) && bytes_lt(&v[j].key, end_key);
                if keep {
                    proof {
                        assert(range_of(seq![s[j as int]], start_key@, end_key@) =~= seq![
                            s[j as int],
                        ]);
                    }
                    let kv = copy_bytes(&v[j].key);
                    let vs = v[j].value_size;
                    let ghost before = stream@;
                    stream.push(KeyEntry::new(kv, k, vs));
                    proof {
                        assert(stream_view(stream@) =~= stream_view(before).push(
                            stream@[before.len() as int].kv(),
                        ));
                        assert(stream_view(stream@) =~= range_of(
                            s.take(j + 1),
                            start_key@,
                            end_key@,
                        ));
                    }
                } else {
                    proof {
                        assert(range_of(seq![s[j as int]], start_key@, end_key@)
                            =~= Seq::<EntryV>::empty());
                        assert(stream_view(stream@) =~= range_of(
                            s.take(j + 1),
                            start_key@,
                            end_key@,
                        ));
                    }
                }
                j = j + 1;
            }
            proof {
                assert(s.take(s.len() as int) =~= s);
            }
            streams.push(stream);
            k = k + 1;
        }
        let it = MergedIterator { streams };
        proof {
            assert forall|k2: int| 0 <= k2 < cfs@.len() implies it.remaining()[k2] == range_of(
                engine.cf_view(cfs@[k2]),
                start_key@,
                end_key@,
            ) by {
                assert(it.remaining()[k2] == stream_view(it.streams@[k2]@));
            }
        }
        it
    }

    /// Emits the smallest front among the streams, or nothing when every
    /// stream is exhausted: one step along `merged_seq`.
    pub fn next(&mut self) -> (r: Option<KeyEntry>)
        requires
            old(self).wf(),
        ensures
            final(self).wf(),
            final(self).remaining().len() == old(self).remaining().len(),
            match r {
                None => final(self).remaining() == old(self).remaining() && old(
                    self,
                ).merged().len() == 0,
                Some(e) => {
                    &&& e.key is Some
                    &&& e.pos < old(self).remaining().len()
                    &&& old(self).merged() == seq![e.kv()] + final(self).merged()
                },
            },
    {
        let ghost ss = self.remaining();
        let ghost snap = self.streams@;
        let mut best: usize = 0;
        let mut found = false;
        let mut i: usize = 0;
        let n = self.streams.len();
        while i < n
            invariant
                n == self.streams@.len(),
                i <= n,
                self.wf(),
                self.streams@ == snap,
                ss == self.remaining(),
                found ==> best < n && ss[best as int].len() > 0,
                pick_from(
                    ss,
                    i as int,
                    if found {
                        best as int
                    } else {
                        -1
                    },
                ) == pick(ss),
            decreases n - i,
        {
            let ghost cur: int = if found {
                best as int
            } else {
                -1
            };
            proof {
                assert(ss[i as int] == stream_view(self.streams@[i as int]@));
            }
            if self.streams[i].len() > 0 {
                let better = if !found {
                    true
                } else {
                    proof {
                        assert(ss[best as int] == stream_view(self.streams@[best as int]@));
                        assert(self.streams@[i as int]@[0].key is Some);
                        assert(self.streams@[best as int]@[0].key is Some);
                    }
                    let ki = self.streams[i][0].key.as_ref().unwrap();
                    let kb = self.streams[best][0].key.as_ref().unwrap();
                    bytes_lt(ki, kb)
                };
                proof {
                    assert(better == (ss[i as int].len() > 0 && (cur < 0 || lex_lt(
                        ss[i as int][0].key,
                        ss[cur][0].key,
                    ))));
                }
                if better {
                    best = i;
                    found = true;
                }
            }
            i = i + 1;
        }
        if !found {
            proof {
                assert(pick(ss) == -1);
                assert(self.merged() == Seq::<EntryV>::empty());
            }
            None
        } else {
            proof {
                assert(best as int == pick(ss));
                assert(ss[best as int] == stream_view(self.streams@[best as int]@));
                assert(self.streams@[best as int]@[0].key is Some);
            }
            let mut inner = self.streams.remove(best);
            let e = inner.remove(0);
            let ghost innerv = inner@;
            self.streams.insert(best, inner);
            proof {
                assert(self.streams@.len() == snap.len());
                assert(forall|t: int| 0 <= t < best ==> self.streams@[t] == snap[t]);
                assert(forall|t: int| best < t < snap.len() ==> self.streams@[t] == snap[t]);
                assert(self.streams@[best as int]@ == innerv);
                assert(innerv =~= snap[best as int]@.drop_first());
                assert(self.remaining() =~= ss.update(
                    best as int,
                    ss[best as int].drop_first(),
                )) by {
                    assert forall|t: int| 0 <= t < ss.len() implies self.remaining()[t]
                        == ss.update(best as int, ss[best as int].drop_first())[t] by {
                        if t == best as int {
                            assert(self.remaining()[t] == stream_view(self.streams@[t]@));
                            assert(stream_view(snap[best as int]@.drop_first()) =~= stream_view(
                                snap[best as int]@,
                            ).drop_first());
                        } else {
                            assert(self.remaining()[t] == stream_view(self.streams@[t]@));
                        }
                    }
                    assert(self.remaining().len() == ss.len());
                }
                assert(e.kv() == ss[best as int][0]);
                assert(old(self).merged() == seq![e.kv()] + final(self).merged());
                assert forall|k2: int| 0 <= k2 < self.streams@.len() implies stream_wf(
                    (#[trigger] self.streams@[k2])@,
                    k2,
                ) by {
                    if k2 == best as int {
                        assert(forall|t: int| 0 <= t < self.streams@[k2]@.len()
                            ==> #[trigger] self.streams@[k2]@[t] == snap[k2]@[t + 1]);
                    } else {
                        assert(self.streams@[k2] == snap[k2]);
                    }
                }
            }
            Some(e)
        }
    }
}

} // verus!
