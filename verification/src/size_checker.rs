//! The built-in split policy: split on accumulated byte weight.
//!
//! Two thresholds steer one forward pass. The key that first pushes the
//! accumulated weight past `split_size` is remembered as the split point
//! (the midpoint of a region that is about to justify a split); the checker
//! fires once the weight also reaches `region_max_size`, so the decision to
//! split and the point to split at come out of the same scan.

use vstd::prelude::*;
use crate::engine::{entry_weight, seq_weight, Engine, EntryV};
use crate::keys::copy_bytes;
use crate::msgs::{Msg, MsgSink, Region};

verus! {

/// Mathematical image of the checker's accumulator.
pub ghost struct SizeStateV {
    pub split_key: Option<Seq<u8>>,
    pub current_size: nat,
}

/// One feed of the accumulator: the state after a record of `weight(e)`
/// bytes, and the split key when the checker fires on it.
pub open spec fn size_feed_spec(
    region_max_size: u64,
    split_size: u64,
    st: SizeStateV,
    e: EntryV,
) -> (SizeStateV, Option<Seq<u8>>) {
    let size = (st.current_size + entry_weight(e)) as nat;
    let sk = if st.split_key is None && size > split_size {
        Some(e.key)
    } else {
        st.split_key
    };
    if sk is Some && size >= region_max_size {
        (SizeStateV { split_key: None, current_size: size }, sk)
    } else {
        (SizeStateV { split_key: sk, current_size: size }, None)
    }
}

/// The accumulator after a whole run of feeds, with no early stop.
pub open spec fn size_feed_all(
    region_max_size: u64,
    split_size: u64,
    st: SizeStateV,
    es: Seq<EntryV>,
) -> SizeStateV
    decreases es.len(),
{
    if es.len() == 0 {
        st
    } else {
        size_feed_all(
            region_max_size,
            split_size,
            size_feed_spec(region_max_size, split_size, st, es[0]).0,
            es.drop_first(),
        )
    }
}

/// Size-checker monotonicity: after any run of feeds the accumulated size
/// is the starting size plus the total byte weight of the records fed —
/// the sum of key length plus value size over every feed — so it never
/// decreases within a task.
pub proof fn lemma_size_monotonicity(
    region_max_size: u64,
    split_size: u64,
    st: SizeStateV,
    es: Seq<EntryV>,
)
    ensures
        size_feed_all(region_max_size, split_size, st, es).current_size == st.current_size
            + seq_weight(es),
        size_feed_all(region_max_size, split_size, st, es).current_size >= st.current_size,
    decreases es.len(),
{
    crate::engine::lemma_seq_weight_nonneg(es);
    if es.len() > 0 {
        crate::engine::lemma_seq_weight_nonneg(es.drop_first());
        lemma_size_monotonicity(
            region_max_size,
            split_size,
            size_feed_spec(region_max_size, split_size, st, es[0]).0,
            es.drop_first(),
        );
    }
}

/// The byte-weight split checker.
pub struct SizeChecker {
    pub region_max_size: u64,
    pub split_size: u64,
    pub split_key: Option<Vec<u8>>,
    pub current_size: u64,
}

impl SizeChecker {
    /// The accumulator this checker holds.
    pub open spec fn st(self) -> SizeStateV {
        SizeStateV {
            split_key: match self.split_key {
                Some(k) => Some(k@),
                None => None,
            },
            current_size: self.current_size as nat,
        }
    }

    /// A fresh accumulator: nothing fed, no split point.
    pub open spec fn fresh(self) -> bool {
        self.split_key is None && self.current_size == 0
    }

    /// A checker for the two thresholds. A split point must come strictly
    /// before the decision threshold.
    pub fn new(region_max_size: u64, split_size: u64) -> (r: SizeChecker)
        requires
            0 < split_size < region_max_size,
        ensures
            r.region_max_size == region_max_size,
            r.split_size == split_size,
            r.fresh(),
    {
        SizeChecker { region_max_size, split_size, split_key: None, current_size: 0 }
    }

    /// The checker's name, for diagnostics only.
    pub fn name(&self) -> (r: &'static str)
        ensures
            r@ == "SizeChecker"@,
    {
        "SizeChecker"
    }

    /// Queries the engine for the region's approximate size over its
    /// prefixed bounds and publishes one observation of it; returns the
    /// estimate. Relies only on the modelled engine, so it cannot fail.
    pub fn check_size(
        &self,
        engine: &Engine,
        region: &Region,
        ch: &mut MsgSink,
        start_key: &Vec<u8>,
        end_key: &Vec<u8>,
    ) -> (r: u64)
        requires
            engine.wf(),
        ensures
            r == engine.approx_size_spec(start_key@, end_key@),
            old(ch)@.closed ==> final(ch)@ == old(ch)@,
            !old(ch)@.closed ==> final(ch)@.msgs == old(ch)@.msgs.push(
                crate::msgs::MsgV::ApproximateRegionSize {
                    region_id: region@.id,
                    region_size: r,
                },
            ) && !final(ch)@.closed,
    {
        let region_size = engine.approximate_size(start_key, end_key);
        let msg = Msg::ApproximateRegionSize { region_id: region.id, region_size };
        let _ = ch.try_send(msg);
        region_size
    }

    /// The quick pre-check: publish the size observation and skip the full
    /// scan exactly when the estimate is below the decision threshold.
    pub fn prev_check(
        &self,
        engine: &Engine,
        region: &Region,
        ch: &mut MsgSink,
        start_key: &Vec<u8>,
        end_key: &Vec<u8>,
    ) -> (skip: bool)
        requires
            engine.wf(),
        ensures
            skip == (engine.approx_size_spec(start_key@, end_key@) < self.region_max_size),
            old(ch)@.closed ==> final(ch)@ == old(ch)@,
            !old(ch)@.closed ==> final(ch)@.msgs == old(ch)@.msgs.push(
                crate::msgs::MsgV::ApproximateRegionSize {
                    region_id: region@.id,
                    region_size: engine.approx_size_spec(start_key@, end_key@) as u64,
                },
            ) && !final(ch)@.closed,
    {
        let region_size = self.check_size(engine, region, ch, start_key, end_key);
        region_size < self.region_max_size
    }

    /// One feed of the scan: accumulate the record's byte weight, remember
    /// the first key that crosses `split_size`, and fire once the weight
    /// reaches `region_max_size`.
    pub fn find_split_key(&mut self, key: &Vec<u8>, value_size: u64) -> (r: Option<Vec<u8>>)
        requires
            old(self).current_size + key@.len() + value_size <= u64::MAX,
        ensures
            final(self).region_max_size == old(self).region_max_size,
            final(self).split_size == old(self).split_size,
            ({
                let (st2, out) = size_feed_spec(
                    old(self).region_max_size,
                    old(self).split_size,
                    old(self).st(),
                    EntryV { key: key@, value_size: value_size as nat },
                );
                &&& final(self).st() == st2
                &&& (match r {
                    Some(k) => out == Some(k@),
                    None => out is None,
                })
            }),
    {
        self.current_size = self.current_size + (key.len() as u64 + value_size);
        if self.split_key.is_none() && self.current_size > self.split_size {
            self.split_key = Some(copy_bytes(key));
        }
        if self.split_key.is_some() && self.current_size >= self.region_max_size {
            let r = self.split_key.take();
            return r;
        }
        None
    }

    /// Clears the accumulator so the checker can serve the next task.
    pub fn finish(&mut self)
        ensures
            final(self).fresh(),
            final(self).region_max_size == old(self).region_max_size,
            final(self).split_size == old(self).split_size,
    {
        self.split_key = None;
        self.current_size = 0;
    }
}

} // verus!
