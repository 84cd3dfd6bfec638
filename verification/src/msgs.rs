//! Regions, epochs, the messages sent to the region control loop, and the
//! bounded channel those messages travel on.
//!
//! The channel is modelled as a sink that either accepts a message or has
//! been closed by the receiving side; a send into a closed sink is dropped,
//! exactly as a failed retryable send is dropped by the worker.

use vstd::prelude::*;

verus! {

/// Versioning token of a region; carried through split proposals unread.
#[derive(Clone, Copy, PartialEq, Eq, Structural, Debug)]
pub struct RegionEpoch {
    pub conf_ver: u64,
    pub version: u64,
}

/// A contiguous keyspace shard. `end_key` is exclusive; an empty `end_key`
/// means the region is unbounded to the right. Keys are in user form,
/// without the data prefix.
#[derive(Clone, Debug)]
pub struct Region {
    pub id: u64,
    pub start_key: Vec<u8>,
    pub end_key: Vec<u8>,
    pub epoch: RegionEpoch,
}

/// Mathematical image of a region.
pub ghost struct RegionV {
    pub id: u64,
    pub start_key: Seq<u8>,
    pub end_key: Seq<u8>,
    pub epoch: RegionEpoch,
}

impl View for Region {
    type V = RegionV;

    open spec fn view(&self) -> RegionV {
        RegionV {
            id: self.id,
            start_key: self.start_key@,
            end_key: self.end_key@,
            epoch: self.epoch,
        }
    }
}

/// A message to the region control loop.
#[derive(Debug)]
pub enum Msg {
    /// One observation of the region's estimated byte size; emitted by every
    /// task that performs a size pre-check.
    ApproximateRegionSize { region_id: u64, region_size: u64 },
    /// A recommendation to split the region at `split_key` (user form,
    /// without the data prefix).
    SplitRegion { region_id: u64, region_epoch: RegionEpoch, split_key: Vec<u8> },
}

/// Mathematical image of a message.
pub ghost enum MsgV {
    ApproximateRegionSize { region_id: u64, region_size: u64 },
    SplitRegion { region_id: u64, region_epoch: RegionEpoch, split_key: Seq<u8> },
}

impl View for Msg {
    type V = MsgV;

    open spec fn view(&self) -> MsgV {
        match self {
            Msg::ApproximateRegionSize { region_id, region_size } => MsgV::ApproximateRegionSize {
                region_id: *region_id,
                region_size: *region_size,
            },
            Msg::SplitRegion { region_id, region_epoch, split_key } => MsgV::SplitRegion {
                region_id: *region_id,
                region_epoch: *region_epoch,
                split_key: split_key@,
            },
        }
    }
}

/// Mathematical image of the sink: the messages it holds, and whether the
/// receiving side is gone.
pub ghost struct MsgSinkV {
    pub msgs: Seq<MsgV>,
    pub closed: bool,
}

/// The worker's end of the control-loop channel. Messages accumulate in
/// order; once the sink is closed every further send fails and the message
/// is dropped.
pub struct MsgSink {
    pub msgs: Vec<Msg>,
    pub closed: bool,
}

impl View for MsgSink {
    type V = MsgSinkV;

    open spec fn view(&self) -> MsgSinkV {
        MsgSinkV { msgs: self.msgs@.map_values(|m: Msg| m@), closed: self.closed }
    }
}

impl MsgSink {
    /// A fresh, open, empty sink.
    pub fn new() -> (r: MsgSink)
        ensures
            r@.msgs == Seq::<MsgV>::empty(),
            !r@.closed,
    {
        let r = MsgSink { msgs: Vec::new(), closed: false };
        proof {
            assert(r@.msgs =~= Seq::<MsgV>::empty());
        }
        r
    }

    /// The receiving side goes away: every later send fails.
    pub fn close(&mut self)
        ensures
            final(self)@.msgs == old(self)@.msgs,
            final(self)@.closed,
    {
        self.closed = true;
    }

    /// Best-effort send. Appends the message when the sink is open; reports
    /// failure and drops the message when it is closed.
    pub fn try_send(&mut self, m: Msg) -> (r: Result<(), ()>)
        ensures
            old(self)@.closed ==> final(self)@ == old(self)@ && r is Err,
            !old(self)@.closed ==> final(self)@.msgs == old(self)@.msgs.push(m@)
                && !final(self)@.closed && r is Ok,
    {
        if self.closed {
            Err(())
        } else {
            let ghost prev = self.msgs@;
            self.msgs.push(m);
            proof {
                assert(self.msgs@.map_values(|x: Msg| x@) =~= prev.map_values(|x: Msg| x@).push(
                    self.msgs@[prev.len() as int]@,
                ));
            }
            Ok(())
        }
    }

    /// Takes the oldest pending message out, as the control loop would.
    pub fn try_recv(&mut self) -> (r: Option<Msg>)
        ensures
            old(self)@.msgs.len() == 0 ==> r is None && final(self)@ == old(self)@,
            old(self)@.msgs.len() > 0 ==> r is Some && r.unwrap()@ == old(self)@.msgs[0]
                && final(self)@.msgs == old(self)@.msgs.drop_first()
                && final(self)@.closed == old(self)@.closed,
    {
        if self.msgs.len() == 0 {
            None
        } else {
            let ghost prev = self.msgs@;
            let m = self.msgs.remove(0);
            proof {
                assert(self.msgs@.map_values(|x: Msg| x@) =~= prev.map_values(|x: Msg| x@)
                    .drop_first());
            }
            Some(m)
        }
    }

    /// How many messages are pending.
    pub fn len(&self) -> (r: usize)
        ensures
            r == self@.msgs.len(),
    {
        self.msgs.len()
    }
}

} // verus!
