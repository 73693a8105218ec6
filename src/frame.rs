//! Frames: the units in which the bitset's history is published.

use crate::bits::unpack;
use vstd::prelude::*;

verus! {

/// A published state of the bitset: a full snapshot (`IFrame`, a keyframe)
/// or the bits that changed since the previous version (`PFrame`, a
/// deltaframe).
#[derive(Clone, Debug, PartialEq, Eq)]
pub enum Frame {
    IFrame { version: usize, timestamp: u64, data: Vec<u64> },
    PFrame { version: usize, timestamp: u64, changes: Vec<(usize, bool)> },
}

/// The mathematical value of a `Frame`.
pub enum FrameModel {
    Key { version: usize, timestamp: u64, data: Seq<u64> },
    Delta { version: usize, timestamp: u64, changes: Seq<(usize, bool)> },
}

impl FrameModel {
    pub open spec fn version(self) -> usize {
        match self {
            FrameModel::Key { version, .. } => version,
            FrameModel::Delta { version, .. } => version,
        }
    }

    pub open spec fn timestamp(self) -> u64 {
        match self {
            FrameModel::Key { timestamp, .. } => timestamp,
            FrameModel::Delta { timestamp, .. } => timestamp,
        }
    }
}

impl View for Frame {
    type V = FrameModel;

    open spec fn view(&self) -> FrameModel {
        match self {
            Frame::IFrame { version, timestamp, data } => FrameModel::Key {
                version: *version,
                timestamp: *timestamp,
                data: data@,
            },
            Frame::PFrame { version, timestamp, changes } => FrameModel::Delta {
                version: *version,
                timestamp: *timestamp,
                changes: changes@,
            },
        }
    }
}

/// A subscriber's catch-up request: the highest version it has applied.
#[derive(Clone, Copy, Debug, PartialEq, Eq)]
pub struct ClientMessage {
    pub last_version: usize,
}

/// `bits` after writing each in-range change in order; out-of-range indices
/// are ignored.
pub open spec fn apply_changes(bits: Seq<bool>, changes: Seq<(usize, bool)>) -> Seq<bool>
    decreases changes.len(),
{
    if changes.len() == 0 {
        bits
    } else {
        let prev = apply_changes(bits, changes.drop_last());
        let (i, v) = changes.last();
        if (i as int) < prev.len() {
            prev.update(i as int, v)
        } else {
            prev
        }
    }
}

/// The changes of `batch` that flip a bit when applied in order to `bits`.
pub open spec fn effective_changes(bits: Seq<bool>, batch: Seq<(usize, bool)>) -> Seq<(usize, bool)>
    decreases batch.len(),
{
    if batch.len() == 0 {
        Seq::empty()
    } else {
        let prev = effective_changes(bits, batch.drop_last());
        let cur = apply_changes(bits, batch.drop_last());
        let (i, v) = batch.last();
        if (i as int) < cur.len() && cur[i as int] != v {
            prev.push((i, v))
        } else {
            prev
        }
    }
}

/// The bitset a subscriber holds after receiving `f` while holding `bits`.
pub open spec fn apply_frame(bits: Seq<bool>, f: FrameModel) -> Seq<bool> {
    match f {
        FrameModel::Key { data, .. } => unpack(data, bits.len()),
        FrameModel::Delta { changes, .. } => apply_changes(bits, changes),
    }
}

/// The bitset after receiving each of `frames` in order.
pub open spec fn apply_frames(bits: Seq<bool>, frames: Seq<FrameModel>) -> Seq<bool>
    decreases frames.len(),
{
    if frames.len() == 0 {
        bits
    } else {
        apply_frame(apply_frames(bits, frames.drop_last()), frames.last())
    }
}

/// Applying changes never changes the length of the bitset.
pub proof fn lemma_apply_changes_len(bits: Seq<bool>, changes: Seq<(usize, bool)>)
    ensures
        apply_changes(bits, changes).len() == bits.len(),
    decreases changes.len(),
{
    if changes.len() > 0 {
        lemma_apply_changes_len(bits, changes.drop_last());
    }
}

/// The effective changes of a batch are in range, flip bits, and leave the
/// bitset exactly as the whole batch does.
pub proof fn lemma_effective_changes(bits: Seq<bool>, batch: Seq<(usize, bool)>)
    ensures
        apply_changes(bits, effective_changes(bits, batch)) == apply_changes(bits, batch),
        forall|k: int|
            0 <= k < effective_changes(bits, batch).len() ==> (#[trigger] effective_changes(
                bits,
                batch,
            )[k]).0 < bits.len(),
    decreases batch.len(),
{
    if batch.len() > 0 {
        let prefix = batch.drop_last();
        lemma_effective_changes(bits, prefix);
        lemma_apply_changes_len(bits, prefix);
        let prev = effective_changes(bits, prefix);
        let (i, v) = batch.last();
        let cur = apply_changes(bits, prefix);
        if (i as int) < cur.len() && cur[i as int] != v {
            assert(prev.push((i, v)).drop_last() == prev);
        } else if (i as int) < cur.len() {
            assert(cur.update(i as int, v) =~= cur);
        }
    }
}

impl Frame {
    /// The version this frame brings its receiver to.
    pub fn version(&self) -> (r: usize)
        ensures
            r == self@.version(),
    {
        match self {
            Frame::IFrame { version, .. } => *version,
            Frame::PFrame { version, .. } => *version,
        }
    }

    /// Whether this frame is a keyframe.
    pub fn is_keyframe(&self) -> (r: bool)
        ensures
            r == self@ is Key,
    {
        match self {
            Frame::IFrame { .. } => true,
            Frame::PFrame { .. } => false,
        }
    }

    /// A copy of this frame.
    pub fn duplicate(&self) -> (r: Frame)
        ensures
            r@ == self@,
    {
        match self {
            Frame::IFrame { version, timestamp, data } => {
                let mut copy: Vec<u64> = Vec::with_capacity(data.len());
                let mut k: usize = 0;
                while k < data.len()
                    invariant
                        k <= data@.len(),
                        copy@ == data@.subrange(0, k as int),
                    decreases data@.len() - k,
                {
                    copy.push(data[k]);
                    k += 1;
                }
                assert(copy@ =~= data@);
                Frame::IFrame { version: *version, timestamp: *timestamp, data: copy }
            },
            Frame::PFrame { version, timestamp, changes } => {
                let mut copy: Vec<(usize, bool)> = Vec::with_capacity(changes.len());
                let mut k: usize = 0;
                while k < changes.len()
                    invariant
                        k <= changes@.len(),
                        copy@ == changes@.subrange(0, k as int),
                    decreases changes@.len() - k,
                {
                    copy.push(changes[k]);
                    k += 1;
                }
                assert(copy@ =~= changes@);
                Frame::PFrame { version: *version, timestamp: *timestamp, changes: copy }
            },
        }
    }
}

} // verus!
