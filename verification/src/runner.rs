//! The task orchestrator: one split check from probe to published decision.
//!
//! A task runs as a straight pipeline. The runner probes the region's span,
//! lets each checker pre-check (the size checker publishes its size
//! observation there), and when either checker wants a full pass it streams
//! the merged scan into them, priority checker first, until one fires or the
//! scan ends. The priority decision wins over the size decision; the chosen
//! key is stripped of the data prefix and published. The whole outcome is
//! the spec function `appended_spec`: exactly the messages one task adds to
//! an open sink.

use vstd::prelude::*;
use crate::engine::{
    in_range, large_cfs, large_cfs_spec, lemma_range_of_in_range, lemma_range_of_sorted_weight,
    lemma_seq_weight_concat, lemma_seq_weight_nonneg, lemma_seq_weight_singleton, range_of,
    seq_weight, CfName, Engine, EntryV,
};
use crate::keys::{
    enc_end_key, enc_end_spec, enc_start_key, enc_start_spec, copy_bytes,
    lemma_range_key_prefixed, origin_key, DATA_PREFIX,
};
use crate::merge::{
    all_in_range, lemma_merged_order, lemma_merged_weight, merged_seq, streams_weight,
    MergedIterator,
};
use crate::msgs::{Msg, MsgSink, MsgV, Region, RegionEpoch, RegionV};
use crate::probe::{bound_keys, bounds_spec};
use crate::size_checker::{size_feed_spec, SizeChecker, SizeStateV};
use crate::table_checker::{table_feed_spec, table_prev_spec, TableChecker, TableStateV};

verus! {

/// A single split-check request: a snapshot of the region to examine.
pub struct Task {
    pub region: Region,
}

impl Task {
    /// Snapshots the region into a task.
    pub fn new(region: &Region) -> (t: Task)
        ensures
            t.region@ == region@,
    {
        Task {
            region: Region {
                id: region.id,
                start_key: copy_bytes(&region.start_key),
                end_key: copy_bytes(&region.end_key),
                epoch: region.epoch,
            },
        }
    }
}

/// A table checker's state before anything was fed.
pub open spec fn fresh_table_st() -> TableStateV {
    TableStateV { seen: false, first: None }
}

/// A size checker's accumulator before anything was fed.
pub open spec fn fresh_size_st() -> SizeStateV {
    SizeStateV { split_key: None, current_size: 0 }
}

/// The streams a full scan merges: the large column families restricted to
/// the region's prefixed range, in their fixed order.
pub open spec fn scan_streams(engine: Engine, start: Seq<u8>, end: Seq<u8>) -> Seq<Seq<EntryV>> {
    large_cfs_spec().map_values(|c: CfName| range_of(engine.cf_view(c), start, end))
}

/// The scan: feed each emitted record to the priority checker (when
/// active), then to the size checker (when active), until one fires. The
/// result is the split key and whether the priority checker chose it.
pub open spec fn scan_spec(
    region_max_size: u64,
    split_size: u64,
    pri_on: bool,
    size_on: bool,
    pri_st: TableStateV,
    size_st: SizeStateV,
    es: Seq<EntryV>,
) -> Option<(Seq<u8>, bool)>
    decreases es.len(),
{
    if es.len() == 0 {
        None
    } else {
        let e = es[0];
        let pri_r = table_feed_spec(pri_st, e.key);
        if pri_on && pri_r.1 is Some {
            Some((pri_r.1.unwrap(), true))
        } else {
            let pri_st2 = if pri_on {
                pri_r.0
            } else {
                pri_st
            };
            let size_r = size_feed_spec(region_max_size, split_size, size_st, e);
            if size_on && size_r.1 is Some {
                Some((size_r.1.unwrap(), false))
            } else {
                let size_st2 = if size_on {
                    size_r.0
                } else {
                    size_st
                };
                scan_spec(
                    region_max_size,
                    split_size,
                    pri_on,
                    size_on,
                    pri_st2,
                    size_st2,
                    es.drop_first(),
                )
            }
        }
    }
}

/// Split-point reality: a split key chosen by the size checker during a
/// scan that started from a fresh accumulator is the key of one of the
/// records fed to it.
pub proof fn lemma_split_point_reality(
    region_max_size: u64,
    split_size: u64,
    pri_on: bool,
    size_on: bool,
    es: Seq<EntryV>,
)
    ensures
        match scan_spec(
            region_max_size,
            split_size,
            pri_on,
            size_on,
            fresh_table_st(),
            fresh_size_st(),
            es,
        ) {
            Some((k, from_pri)) => !from_pri ==> exists|i: int|
                0 <= i < es.len() && #[trigger] es[i].key == k,
            None => true,
        },
{
    lemma_scan_size_key_rec(
        region_max_size,
        split_size,
        pri_on,
        size_on,
        fresh_table_st(),
        fresh_size_st(),
        es,
    );
}

proof fn lemma_scan_size_key_rec(
    region_max_size: u64,
    split_size: u64,
    pri_on: bool,
    size_on: bool,
    pri_st: TableStateV,
    size_st: SizeStateV,
    es: Seq<EntryV>,
)
    ensures
        match scan_spec(region_max_size, split_size, pri_on, size_on, pri_st, size_st, es) {
            Some((k, from_pri)) => !from_pri ==> (exists|i: int|
                0 <= i < es.len() && #[trigger] es[i].key == k) || size_st.split_key == Some(k),
            None => true,
        },
    decreases es.len(),
{
    if es.len() > 0 {
        let e = es[0];
        let pri_r = table_feed_spec(pri_st, e.key);
        if pri_on && pri_r.1 is Some {
        } else {
            let pri_st2 = if pri_on {
                pri_r.0
            } else {
                pri_st
            };
            let size_r = size_feed_spec(region_max_size, split_size, size_st, e);
            if size_on && size_r.1 is Some {
                let k = size_r.1.unwrap();
                if size_st.split_key != Some(k) {
                    assert(es[0].key == k);
                }
            } else {
                let size_st2 = if size_on {
                    size_r.0
                } else {
                    size_st
                };
                lemma_scan_size_key_rec(
                    region_max_size,
                    split_size,
                    pri_on,
                    size_on,
                    pri_st2,
                    size_st2,
                    es.drop_first(),
                );
                match scan_spec(
                    region_max_size,
                    split_size,
                    pri_on,
                    size_on,
                    pri_st2,
                    size_st2,
                    es.drop_first(),
                ) {
                    Some((k, from_pri)) => {
                        if !from_pri {
                            if exists|i: int|
                                0 <= i < es.drop_first().len() && #[trigger] es.drop_first()[i].key
                                    == k {
                                let i = choose|i: int|
                                    0 <= i < es.drop_first().len()
                                        && #[trigger] es.drop_first()[i].key == k;
                                assert(es[i + 1].key == k);
                            } else {
                                assert(size_st2.split_key == Some(k));
                                if size_st.split_key != Some(k) {
                                    assert(es[0].key == k);
                                }
                            }
                        }
                    },
                    None => {},
                }
            }
        }
    }
}

/// A split key chosen by the priority checker carries the data prefix: it
/// is a freshly built, prefixed table boundary.
proof fn lemma_scan_pri_key(
    region_max_size: u64,
    split_size: u64,
    pri_on: bool,
    size_on: bool,
    pri_st: TableStateV,
    size_st: SizeStateV,
    es: Seq<EntryV>,
)
    ensures
        match scan_spec(region_max_size, split_size, pri_on, size_on, pri_st, size_st, es) {
            Some((k, from_pri)) => from_pri ==> k.len() >= 1 && k[0] == DATA_PREFIX,
            None => true,
        },
    decreases es.len(),
{
    if es.len() > 0 {
        let e = es[0];
        let pri_r = table_feed_spec(pri_st, e.key);
        if pri_on && pri_r.1 is Some {
        } else {
            let pri_st2 = if pri_on {
                pri_r.0
            } else {
                pri_st
            };
            let size_r = size_feed_spec(region_max_size, split_size, size_st, e);
            if size_on && size_r.1 is Some {
            } else {
                let size_st2 = if size_on {
                    size_r.0
                } else {
                    size_st
                };
                lemma_scan_pri_key(
                    region_max_size,
                    split_size,
                    pri_on,
                    size_on,
                    pri_st2,
                    size_st2,
                    es.drop_first(),
                );
            }
        }
    }
}

/// Exactly the messages one task adds to an open sink: nothing after a
/// probe failure; the size observation always otherwise; and the split
/// recommendation, its key un-prefixed, when a scan ran and a checker
/// fired.
pub open spec fn appended_spec(
    engine: Engine,
    region: RegionV,
    has_pri: bool,
    region_max_size: u64,
    split_size: u64,
) -> Seq<MsgV> {
    let start = enc_start_spec(region);
    let end = enc_end_spec(region);
    match bounds_spec(engine, large_cfs_spec(), start, end) {
        Err(_) => Seq::empty(),
        Ok(bounds) => {
            let approx = engine.approx_size_spec(start, end);
            let skip_size = approx < region_max_size;
            let skip_pri = !has_pri || table_prev_spec(bounds);
            let head = seq![
                MsgV::ApproximateRegionSize {
                    region_id: region.id,
                    region_size: approx as u64,
                },
            ];
            if skip_size && skip_pri {
                head
            } else {
                let es = merged_seq(scan_streams(engine, start, end));
                match scan_spec(
                    region_max_size,
                    split_size,
                    !skip_pri,
                    !skip_size,
                    fresh_table_st(),
                    fresh_size_st(),
                    es,
                ) {
                    Some((k, _)) => head + seq![
                        MsgV::SplitRegion {
                            region_id: region.id,
                            region_epoch: region.epoch,
                            split_key: k.skip(1),
                        },
                    ],
                    None => head,
                }
            }
        },
    }
}

/// Pre-check skip: when the approximate size sits below the decision
/// threshold and no priority checker asks for a scan, the task publishes
/// its size observation and nothing else — no split is recommended.
pub proof fn lemma_precheck_skip(
    engine: Engine,
    region: RegionV,
    has_pri: bool,
    region_max_size: u64,
    split_size: u64,
)
    requires
        engine.approx_size_spec(enc_start_spec(region), enc_end_spec(region)) < region_max_size,
        has_pri ==> (match bounds_spec(
            engine,
            large_cfs_spec(),
            enc_start_spec(region),
            enc_end_spec(region),
        ) {
            Ok(b) => table_prev_spec(b),
            Err(_) => true,
        }),
    ensures
        forall|i: int| 0 <= i < appended_spec(engine, region, has_pri, region_max_size, split_size).len()
            ==> (#[trigger] appended_spec(engine, region, has_pri, region_max_size, split_size)[i])
            is ApproximateRegionSize,
{
}

/// Idempotence: what a task appends is a function of the engine state, the
/// region and the configuration alone, and `run` leaves the engine
/// untouched and the checkers reset; so running the same task twice against
/// an unchanged engine appends the same messages — the same split key —
/// both times.
pub proof fn lemma_idempotent_task(
    engine: Engine,
    region: RegionV,
    has_pri: bool,
    region_max_size: u64,
    split_size: u64,
    first: Seq<MsgV>,
    second: Seq<MsgV>,
)
    requires
        first == appended_spec(engine, region, has_pri, region_max_size, split_size),
        second == appended_spec(engine, region, has_pri, region_max_size, split_size),
    ensures
        first == second,
{
}

/// Builds the split recommendation, stripping the data prefix from the
/// chosen key.
fn new_split_region(region_id: u64, epoch: RegionEpoch, split_key: Vec<u8>) -> (m: Msg)
    requires
        split_key@.len() >= 1,
        split_key@[0] == DATA_PREFIX,
    ensures
        m@ == (MsgV::SplitRegion {
            region_id,
            region_epoch: epoch,
            split_key: split_key@.skip(1),
        }),
{
    let key = origin_key(&split_key);
    Msg::SplitRegion { region_id, region_epoch: epoch, split_key: key }
}

/// The split-check worker: engine handle, control-loop sink, the built-in
/// size checker and the optional priority checker.
pub struct Runner {
    pub engine: Engine,
    pub ch: MsgSink,
    pub size_checker: SizeChecker,
    pub priority_checker: Option<TableChecker>,
}

impl Runner {
    /// Whether a priority checker is installed.
    pub open spec fn has_priority(self) -> bool {
        self.priority_checker is Some
    }

    pub open spec fn max_size(self) -> u64 {
        self.size_checker.region_max_size
    }

    pub open spec fn split_size(self) -> u64 {
        self.size_checker.split_size
    }

    /// Ready for a task: a well-formed engine, valid thresholds, and
    /// checkers with cleared accumulators.
    pub open spec fn wf(self) -> bool {
        &&& self.engine.wf()
        &&& 0 < self.size_checker.split_size < self.size_checker.region_max_size
        &&& self.size_checker.fresh()
        &&& match self.priority_checker {
            Some(c) => c.fresh(),
            None => true,
        }
    }

    /// A runner over `engine` publishing into `ch`, with the two size
    /// thresholds and no priority checker.
    pub fn new(engine: Engine, ch: MsgSink, region_max_size: u64, split_size: u64) -> (r: Runner)
        requires
            engine.wf(),
            0 < split_size < region_max_size,
        ensures
            r.wf(),
            r.engine == engine,
            r.ch == ch,
            r.max_size() == region_max_size,
            r.split_size() == split_size,
            !r.has_priority(),
    {
        Runner {
            engine,
            ch,
            size_checker: SizeChecker::new(region_max_size, split_size),
            priority_checker: None,
        }
    }

    /// Installs or removes the priority checker.
    pub fn set_priority_checker(&mut self, checker: Option<TableChecker>)
        requires
            match checker {
                Some(c) => c.fresh(),
                None => true,
            },
        ensures
            final(self).priority_checker == checker,
            final(self).engine == old(self).engine,
            final(self).ch == old(self).ch,
            final(self).size_checker == old(self).size_checker,
            old(self).wf() ==> final(self).wf(),
    {
        self.priority_checker = checker;
    }

    /// Runs one task to completion. Never fails: errors are swallowed and
    /// at most the task's messages are appended to the sink.
    pub fn run(&mut self, task: Task)
        requires
            old(self).wf(),
        ensures
            final(self).wf(),
            final(self).engine == old(self).engine,
            final(self).ch@.closed == old(self).ch@.closed,
            final(self).max_size() == old(self).max_size(),
            final(self).split_size() == old(self).split_size(),
            final(self).has_priority() == old(self).has_priority(),
            old(self).ch@.closed ==> final(self).ch@.msgs == old(self).ch@.msgs,
            !old(self).ch@.closed ==> final(self).ch@.msgs == old(self).ch@.msgs + appended_spec(
                old(self).engine,
                task.region@,
                old(self).has_priority(),
                old(self).max_size(),
                old(self).split_size(),
            ),
    {
        self.check_split(&task.region);
    }

    /// The per-task pipeline; see `appended_spec` for its outcome.
    fn check_split(&mut self, region: &Region)
        requires
            old(self).wf(),
        ensures
            final(self).wf(),
            final(self).engine == old(self).engine,
            final(self).ch@.closed == old(self).ch@.closed,
            final(self).max_size() == old(self).max_size(),
            final(self).split_size() == old(self).split_size(),
            final(self).has_priority() == old(self).has_priority(),
            old(self).ch@.closed ==> final(self).ch@.msgs == old(self).ch@.msgs,
            !old(self).ch@.closed ==> final(self).ch@.msgs == old(self).ch@.msgs + appended_spec(
                old(self).engine,
                region@,
                old(self).has_priority(),
                old(self).max_size(),
                old(self).split_size(),
            ),
    {
        let ghost m0 = self.size_checker.region_max_size;
        let ghost s0 = self.size_checker.split_size;
        let ghost eng0 = self.engine;
        let ghost msgs0 = self.ch@.msgs;
        let start_key = enc_start_key(region);
        let end_key = enc_end_key(region);
        let cfs = large_cfs();
        let bks = match bound_keys(&self.engine, &cfs, &start_key, &end_key) {
            Ok(b) => b,
            Err(_) => {
                proof {
                    assert(appended_spec(eng0, region@, old(self).has_priority(), m0, s0)
                        =~= Seq::<MsgV>::empty());
                    assert(msgs0 + Seq::<MsgV>::empty() =~= msgs0);
                }
                return ;
            },
        };
        let ghost bounds_v = (match bks {
            Some((ref a, ref b)) => Some((a@, b@)),
            None => None,
        });
        let skip_size = self.size_checker.prev_check(
            &self.engine,
            region,
            &mut self.ch,
            &start_key,
            &end_key,
        );
        let skip_pri = match &self.priority_checker {
            None => true,
            Some(c) => c.prev_check(region, &bks),
        };
        let ghost approx = eng0.approx_size_spec(start_key@, end_key@);
        let ghost head = seq![
            MsgV::ApproximateRegionSize { region_id: region@.id, region_size: approx as u64 },
        ];
        proof {
            lemma_range_of_sorted_weight(eng0.cf_view(CfName::Default), start_key@, end_key@);
            lemma_range_of_sorted_weight(eng0.cf_view(CfName::Write), start_key@, end_key@);
            lemma_seq_weight_nonneg(eng0.cf_view(CfName::Lock));
            lemma_seq_weight_nonneg(range_of(eng0.cf_view(CfName::Default), start_key@, end_key@));
            lemma_seq_weight_nonneg(range_of(eng0.cf_view(CfName::Write), start_key@, end_key@));
            assert(0 <= approx <= u64::MAX);
            if !self.ch@.closed {
                assert(self.ch@.msgs =~= msgs0 + head);
            }
            assert(skip_pri == (!old(self).has_priority() || table_prev_spec(bounds_v)));
        }
        if skip_pri && skip_size {
            proof {
                assert(appended_spec(eng0, region@, old(self).has_priority(), m0, s0) =~= head);
            }
            return ;
        }
        let mut iter = MergedIterator::new(&self.engine, &cfs, &start_key, &end_key, false);
        let ghost ss0 = iter.remaining();
        let ghost es0 = iter.merged();
        proof {
            assert(ss0 =~= scan_streams(eng0, start_key@, end_key@)) by {
                assert forall|k: int| 0 <= k < 2 implies ss0[k] == scan_streams(
                    eng0,
                    start_key@,
                    end_key@,
                )[k] by {
                    assert(ss0[k] == range_of(eng0.cf_view(cfs@[k]), start_key@, end_key@));
                }
            }
            // total scanned weight fits the machine
            lemma_merged_weight(ss0);
            assert(streams_weight(ss0) == seq_weight(ss0[0]) + seq_weight(ss0[1])) by {
                let tail = ss0.drop_first();
                assert(ss0.len() == 2);
                assert(streams_weight(ss0) == seq_weight(ss0[0]) + streams_weight(tail));
                assert(streams_weight(tail) == seq_weight(tail[0]) + streams_weight(
                    tail.drop_first(),
                ));
                assert(tail.drop_first() =~= Seq::<Seq<EntryV>>::empty());
                assert(streams_weight(Seq::<Seq<EntryV>>::empty()) == 0);
                assert(tail[0] == ss0[1]);
            }
            assert(seq_weight(es0) + self.size_checker.st().current_size <= u64::MAX);
            // the emitted records are sorted and lie inside the region's range
            lemma_range_of_in_range(eng0.cf_view(CfName::Default), start_key@, end_key@);
            lemma_range_of_in_range(eng0.cf_view(CfName::Write), start_key@, end_key@);
            assert forall|k: int| 0 <= k < ss0.len() implies crate::engine::sorted_strict(
                #[trigger] ss0[k],
            ) && all_in_range(ss0[k], start_key@, end_key@) by {
                assert(ss0[k] == range_of(eng0.cf_view(cfs@[k]), start_key@, end_key@));
            }
            lemma_merged_order(ss0, start_key@, end_key@);
        }
        let ghost scan_res = scan_spec(
            m0,
            s0,
            !skip_pri,
            !skip_size,
            fresh_table_st(),
            fresh_size_st(),
            es0,
        );
        let mut pri_split_key: Option<Vec<u8>> = None;
        let mut size_split_key: Option<Vec<u8>> = None;
        let mut done = false;
        while !done
            invariant
                iter.wf(),
                self.engine == eng0,
                self.ch@.msgs == (if old(self).ch@.closed {
                    msgs0
                } else {
                    msgs0 + head
                }),
                self.ch@.closed == old(self).ch@.closed,
                self.size_checker.region_max_size == m0,
                self.size_checker.split_size == s0,
                self.priority_checker is Some <==> old(self).has_priority(),
                !skip_pri ==> self.priority_checker is Some,
                !done ==> pri_split_key is None && size_split_key is None,
                !done ==> scan_res == scan_spec(
                    m0,
                    s0,
                    !skip_pri,
                    !skip_size,
                    (match self.priority_checker {
                        Some(c) => c.st(),
                        None => fresh_table_st(),
                    }),
                    self.size_checker.st(),
                    iter.merged(),
                ),
                !done ==> self.size_checker.st().current_size + seq_weight(iter.merged())
                    <= u64::MAX,
                done ==> (match (pri_split_key, size_split_key) {
                    (Some(k), _) => scan_res == Some((k@, true)),
                    (None, Some(k)) => scan_res == Some((k@, false)),
                    (None, None) => scan_res is None,
                }),
            decreases iter.merged().len() + (if done {
                0int
            } else {
                1int
            }),
        {
            let ghost merged_before = iter.merged();
            let e_opt = iter.next();
            match e_opt {
                None => {
                    done = true;
                },
                Some(e) => {
                    let ghost merged_after = iter.merged();
                    let ghost ev = e.kv();
                    proof {
                        assert(merged_before == seq![ev] + merged_after);
                        assert(merged_before[0] == ev);
                        assert((seq![ev] + merged_after).drop_first() =~= merged_after);
                        lemma_seq_weight_concat(seq![ev], merged_after);
                        lemma_seq_weight_singleton(ev);
                        lemma_seq_weight_nonneg(merged_after);
                    }
                    let key = e.key.as_ref().unwrap();
                    let vs = e.value_size as u64;
                    proof {
                        assert(ev.key == key@);
                        assert(ev.value_size == vs as nat);
                    }
                    if !skip_pri {
                        let fired = match &mut self.priority_checker {
                            Some(c) => c.find_split_key(key, vs),
                            None => None,
                        };
                        if let Some(k) = fired {
                            pri_split_key = Some(k);
                            done = true;
                        }
                    }
                    if !done && !skip_size {
                        proof {
                            assert(self.size_checker.st().current_size + key@.len() + vs
                                <= u64::MAX);
                        }
                        let fired = self.size_checker.find_split_key(key, vs);
                        if let Some(k) = fired {
                            size_split_key = Some(k);
                            done = true;
                        }
                    }
                },
            }
        }
        self.size_checker.finish();
        match &mut self.priority_checker {
            Some(c) => c.finish(),
            None => {},
        }
        let chosen = match (pri_split_key, size_split_key) {
            (Some(k), _) => k,
            (None, Some(k)) => k,
            (None, None) => {
                proof {
                    assert(appended_spec(eng0, region@, old(self).has_priority(), m0, s0)
                        =~= head);
                }
                return ;
            },
        };
        proof {
            lemma_scan_pri_key(
                m0,
                s0,
                !skip_pri,
                !skip_size,
                fresh_table_st(),
                fresh_size_st(),
                es0,
            );
            lemma_split_point_reality(m0, s0, !skip_pri, !skip_size, es0);
            match scan_res {
                Some((k, from_pri)) => {
                    if !from_pri {
                        let i = choose|i: int| 0 <= i < es0.len() && #[trigger] es0[i].key == k;
                        assert(in_range(es0[i].key, start_key@, end_key@));
                        lemma_range_key_prefixed(k, region@);
                    }
                },
                None => {},
            }
            assert(chosen@.len() >= 1 && chosen@[0] == DATA_PREFIX);
        }
        let msg = new_split_region(region.id, region.epoch, chosen);
        let ghost sent = msg@;
        let _ = self.ch.try_send(msg);
        proof {
            let appended = appended_spec(eng0, region@, old(self).has_priority(), m0, s0);
            if !old(self).ch@.closed {
                assert(appended =~= head + seq![sent]);
                assert(self.ch@.msgs =~= msgs0 + appended);
            }
        }
    }
}

} // verus!
