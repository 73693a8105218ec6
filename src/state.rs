//! The authoritative bitset, its version, and the replay buffer of the most
//! recent frames.

use crate::bits::{packs, unpack, Bits};
use crate::frame::{
    apply_changes, apply_frame, apply_frames, effective_changes, lemma_apply_changes_len,
    lemma_effective_changes, Frame, FrameModel,
};
use std::collections::VecDeque;
use vstd::prelude::*;

verus! {

/// The frame that a tick produces at `version` from the bits it leaves and
/// the changes that took effect; `words` are the packed bits.
pub open spec fn tick_frame(
    f: FrameModel,
    version: usize,
    timestamp: u64,
    keyframe_interval: usize,
    bits: Seq<bool>,
    changed: Seq<(usize, bool)>,
) -> bool {
    &&& f.version() == version
    &&& f.timestamp() == timestamp
    &&& if version % keyframe_interval == 0 {
        f is Key && packs(f->Key_data, bits)
    } else {
        f is Delta && f->Delta_changes == changed
    }
}

/// A keyframe holds exactly the bits it was made from, so it brings any
/// receiver of the same length to them.
pub proof fn lemma_keyframe_restores(data: Seq<u64>, bits: Seq<bool>, held: Seq<bool>)
    requires
        packs(data, bits),
        held.len() == bits.len(),
    ensures
        unpack(data, held.len()) == bits,
{
    assert(unpack(data, held.len()) =~= bits);
}

/// Writes each in-range change of `changes` into `bits`, in order, and
/// returns those that flipped a bit.
pub fn apply_batch(bits: &mut Bits, changes: &Vec<(usize, bool)>) -> (changed: Vec<(usize, bool)>)
    ensures
        final(bits)@ == apply_changes(old(bits)@, changes@),
        changed@ == effective_changes(old(bits)@, changes@),
        final(bits)@.len() == old(bits)@.len(),
{
    let ghost start = bits@;
    let n = bits.len();
    let mut changed: Vec<(usize, bool)> = Vec::new();
    let mut k: usize = 0;
    while k < changes.len()
        invariant
            k <= changes@.len(),
            n == start.len(),
            bits@ == apply_changes(start, changes@.take(k as int)),
            changed@ == effective_changes(start, changes@.take(k as int)),
        decreases changes@.len() - k,
    {
        proof {
            lemma_apply_changes_len(start, changes@.take(k as int));
            assert(changes@.take(k + 1).drop_last() =~= changes@.take(k as int));
        }
        let (index, value) = changes[k];
        if index < n && bits.get(index) != value {
            bits.set(index, value);
            changed.push((index, value));
        }
        k += 1;
    }
    assert(changes@.take(k as int) =~= changes@);
    proof {
        lemma_apply_changes_len(start, changes@);
    }
    changed
}

/// The bitset that is published, with its version and the recent frames.
pub struct AppState {
    state: Bits,
    version: usize,
    frame_buffer: VecDeque<Frame>,
    keyframe_interval: usize,
    buffer_capacity: usize,
    max_catchup_frames: usize,
    /// The bitset after each buffered frame, oldest first.
    history: Ghost<Seq<Seq<bool>>>,
}

impl AppState {
    /// The buffered frames, oldest first.
    pub closed spec fn frames(&self) -> Seq<FrameModel> {
        self.frame_buffer@.map_values(|f: Frame| f@)
    }

    pub closed spec fn bits(&self) -> Seq<bool> {
        self.state@
    }

    pub closed spec fn spec_version(&self) -> usize {
        self.version
    }

    /// The version of the oldest buffered frame.
    pub closed spec fn first_version(&self) -> int {
        self.version - (self.frame_buffer@.len() - 1)
    }

    /// Whether a catch-up request from `client_version` is answered with a
    /// keyframe rather than by replaying buffered frames.
    pub open spec fn replays_by_keyframe(&self, client_version: usize) -> bool {
        ||| client_version > self.spec_version()
        ||| self.spec_version() - client_version > self.spec_max_catchup_frames()
        ||| self.first_version() > client_version + 1
    }

    pub closed spec fn snapshots(&self) -> Seq<Seq<bool>> {
        self.history@
    }

    pub closed spec fn spec_keyframe_interval(&self) -> usize {
        self.keyframe_interval
    }

    pub closed spec fn spec_buffer_capacity(&self) -> usize {
        self.buffer_capacity
    }

    pub closed spec fn spec_max_catchup_frames(&self) -> usize {
        self.max_catchup_frames
    }

    /// The state's invariant: the buffer holds one frame for each of the
    /// latest versions, ending at the current one; keyframes stand exactly at
    /// the multiples of the keyframe period; and each frame takes the bitset
    /// after its predecessor to the bitset after itself.
    pub closed spec fn wf(&self) -> bool {
        let fs = self.frames();
        let hs = self.history@;
        let n = self.state@.len();
        &&& 1 <= self.keyframe_interval <= self.buffer_capacity
        &&& self.max_catchup_frames <= self.buffer_capacity
        &&& 1 <= fs.len() <= self.buffer_capacity
        &&& fs.len() <= self.version + 1
        &&& hs.len() == fs.len()
        &&& hs.last() == self.state@
        &&& forall|k: int| 0 <= k < fs.len() ==> #[trigger] fs[k].version() == self.first_version() + k
        &&& forall|k: int|
            0 <= k < fs.len() ==> (#[trigger] fs[k] is Key <==> fs[k].version()
                % self.keyframe_interval == 0)
        &&& forall|k: int| 0 <= k < fs.len() ==> (#[trigger] hs[k]).len() == n
        &&& forall|k: int|
            0 <= k < fs.len() ==> (#[trigger] fs[k] is Key ==> packs(fs[k]->Key_data, hs[k]))
        &&& forall|k: int|
            1 <= k < fs.len() ==> #[trigger] hs[k] == apply_frame(hs[k - 1], fs[k])
    }

    /// A state at version 0 holding `initial_state`, whose buffer holds the
    /// keyframe of version 0.
    pub fn with_config(
        initial_state: Bits,
        keyframe_interval: usize,
        buffer_capacity: usize,
        max_catchup_frames: usize,
        timestamp: u64,
    ) -> (r: AppState)
        requires
            1 <= keyframe_interval <= buffer_capacity,
            max_catchup_frames <= buffer_capacity,
        ensures
            r.wf(),
            r.spec_version() == 0,
            r.bits() == initial_state@,
            r.frames().len() == 1,
            r.frames()[0] is Key,
            r.frames()[0].version() == 0,
            r.frames()[0].timestamp() == timestamp,
            packs(r.frames()[0]->Key_data, initial_state@),
            r.spec_keyframe_interval() == keyframe_interval,
            r.spec_buffer_capacity() == buffer_capacity,
            r.spec_max_catchup_frames() == max_catchup_frames,
    {
        let ghost initial = initial_state@;
        let data = initial_state.words();
        let initial_frame = Frame::IFrame { version: 0, timestamp, data };
        let ghost f0 = initial_frame@;
        let mut frame_buffer: VecDeque<Frame> = VecDeque::new();
        frame_buffer.push_back(initial_frame);
        let history: Ghost<Seq<Seq<bool>>> = Ghost(Seq::empty().push(initial));
        let r = AppState {
            state: initial_state,
            version: 0,
            frame_buffer,
            keyframe_interval,
            buffer_capacity,
            max_catchup_frames,
            history,
        };
        assert(r.frames() =~= seq![f0]);
        assert(0usize % keyframe_interval == 0) by (nonlinear_arith)
            requires
                keyframe_interval >= 1,
        ;
        r
    }

    /// A state at version 0 with the default keyframe period and catch-up
    /// bound, keeping up to `buffer_size` frames.
    pub fn new(initial_state: Bits, buffer_size: usize, timestamp: u64) -> (r: AppState)
        requires
            crate::MAX_CATCHUP_FRAMES <= buffer_size,
        ensures
            r.wf(),
            r.spec_version() == 0,
            r.bits() == initial_state@,
            r.frames().len() == 1,
            r.frames()[0] is Key,
            r.frames()[0].version() == 0,
            r.frames()[0].timestamp() == timestamp,
            packs(r.frames()[0]->Key_data, initial_state@),
            r.spec_keyframe_interval() == crate::I_FRAME_INTERVAL,
            r.spec_buffer_capacity() == buffer_size,
            r.spec_max_catchup_frames() == crate::MAX_CATCHUP_FRAMES,
    {
        AppState::with_config(
            initial_state,
            crate::I_FRAME_INTERVAL,
            buffer_size,
            crate::MAX_CATCHUP_FRAMES,
            timestamp,
        )
    }

    /// One tick: bumps the version, writes the in-range changes of `changes`
    /// in order, and appends the resulting frame to the buffer, evicting the
    /// oldest frame when the buffer is full. The frame is a keyframe of the
    /// new bits when the new version is a multiple of the keyframe period,
    /// else a deltaframe of the changes that flipped a bit. Returns it.
    pub fn update(&mut self, changes: Vec<(usize, bool)>, timestamp: u64) -> (frame: Frame)
        requires
            old(self).wf(),
            old(self).spec_version() < usize::MAX,
        ensures
            final(self).wf(),
            final(self).spec_version() == old(self).spec_version() + 1,
            final(self).bits() == apply_changes(old(self).bits(), changes@),
            tick_frame(
                frame@,
                final(self).spec_version(),
                timestamp,
                old(self).spec_keyframe_interval(),
                final(self).bits(),
                effective_changes(old(self).bits(), changes@),
            ),
            apply_frame(old(self).bits(), frame@) == final(self).bits(),
            final(self).frames().last() == frame@,
            final(self).frames().drop_last() == if old(self).frames().len()
                == old(self).spec_buffer_capacity() {
                old(self).frames().drop_first()
            } else {
                old(self).frames()
            },
            final(self).spec_keyframe_interval() == old(self).spec_keyframe_interval(),
            final(self).spec_buffer_capacity() == old(self).spec_buffer_capacity(),
            final(self).spec_max_catchup_frames() == old(self).spec_max_catchup_frames(),
    {
        let ghost old_bits = self.state@;
        let ghost old_fs = self.frames();
        self.version = self.version + 1;
        let changed = apply_batch(&mut self.state, &changes);
        proof {
            lemma_effective_changes(old_bits, changes@);
        }
        let frame = if self.version % self.keyframe_interval == 0 {
            let data = self.state.words();
            proof {
                lemma_keyframe_restores(data@, self.state@, old_bits);
            }
            Frame::IFrame { version: self.version, timestamp, data }
        } else {
            Frame::PFrame { version: self.version, timestamp, changes: changed }
        };
        let out = frame.duplicate();
        let ghost fm = frame@;
        self.frame_buffer.push_back(frame);
        self.history = Ghost(self.history@.push(self.state@));
        proof {
            assert(self.frames() =~= old_fs.push(fm));
        }
        if self.frame_buffer.len() > self.buffer_capacity {
            self.frame_buffer.pop_front();
            self.history = Ghost(self.history@.drop_first());
            proof {
                assert(self.frames() =~= old_fs.push(fm).drop_first());
                assert(self.frames().drop_last() =~= old_fs.drop_first());
            }
        } else {
            proof {
                assert(self.frames().drop_last() =~= old_fs);
            }
        }
        out
    }

    /// A keyframe of the current bits at the current version.
    pub fn snapshot_frame(&self, timestamp: u64) -> (r: Frame)
        ensures
            r@ is Key,
            r@.version() == self.spec_version(),
            r@.timestamp() == timestamp,
            packs(r@->Key_data, self.bits()),
    {
        Frame::IFrame { version: self.version, timestamp, data: self.state.words() }
    }

    /// The frames that answer a subscriber that has applied every version up
    /// to `client_version`: none when it is current; a keyframe of the current
    /// bits when it is ahead, when it lags by more than the catch-up bound, or
    /// when the buffer no longer holds the version after its own; else every
    /// buffered frame newer than its version, oldest first.
    pub fn catch_up(&self, client_version: usize, timestamp: u64) -> (r: Vec<Frame>)
        requires
            self.wf(),
        ensures
            client_version == self.spec_version() ==> r@.len() == 0,
            client_version != self.spec_version() && self.replays_by_keyframe(client_version) ==> {
                &&& r@.len() == 1
                &&& r@[0]@ is Key
                &&& r@[0]@.version() == self.spec_version()
                &&& r@[0]@.timestamp() == timestamp
                &&& packs(r@[0]@->Key_data, self.bits())
            },
            client_version != self.spec_version() && !self.replays_by_keyframe(client_version) ==> {
                &&& r@.len() == self.spec_version() - client_version
                &&& r@.map_values(|f: Frame| f@) == self.frames().subrange(
                    client_version + 1 - self.first_version(),
                    self.frames().len() as int,
                )
                &&& forall|k: int| 0 <= k < r@.len() ==> #[trigger] r@[k]@.version() == client_version + 1 + k
            },
    {
        let v = self.version;
        let mut out: Vec<Frame> = Vec::new();
        if client_version == v {
            return out;
        }
        let len = self.frame_buffer.len();
        let first = v - (len - 1);
        if client_version > v || v - client_version > self.max_catchup_frames || first > client_version + 1 {
            out.push(self.snapshot_frame(timestamp));
            return out;
        }
        let start = client_version + 1 - first;
        let mut k: usize = start;
        while k < len
            invariant
                self.wf(),
                len == self.frames().len(),
                first == self.first_version(),
                start == client_version + 1 - first,
                start <= k <= len,
                out@.map_values(|f: Frame| f@) == self.frames().subrange(start as int, k as int),
            decreases len - k,
        {
            let f = self.frame_buffer[k].duplicate();
            let ghost before = out@;
            out.push(f);
            proof {
                assert(out@.map_values(|f: Frame| f@) =~= before.map_values(|f: Frame| f@).push(f@));
                assert(self.frames().subrange(start as int, k + 1) =~= self.frames().subrange(
                    start as int,
                    k as int,
                ).push(self.frames()[k as int]));
            }
            k += 1;
        }
        proof {
            assert forall|j: int| 0 <= j < out@.len() implies #[trigger] out@[j]@.version()
                == client_version + 1 + j by {
                assert(out@.map_values(|f: Frame| f@)[j] == out@[j]@);
            }
        }
        out
    }

    /// The current version.
    pub fn version(&self) -> (r: usize)
        ensures
            r == self.spec_version(),
    {
        self.version
    }

    /// The number of bits.
    pub fn len(&self) -> (r: usize)
        ensures
            r == self.bits().len(),
    {
        self.state.len()
    }

    /// The current value of bit `index`.
    pub fn get(&self, index: usize) -> (r: bool)
        requires
            index < self.bits().len(),
        ensures
            r == self.bits()[index as int],
    {
        self.state.get(index)
    }

    /// The number of buffered frames.
    pub fn buffered(&self) -> (r: usize)
        ensures
            r == self.frames().len(),
    {
        self.frame_buffer.len()
    }

    /// A copy of the buffered frame at `index`, oldest first.
    pub fn buffered_frame(&self, index: usize) -> (r: Frame)
        requires
            index < self.frames().len(),
        ensures
            r@ == self.frames()[index as int],
    {
        self.frame_buffer[index].duplicate()
    }
}

/// Every frame of the replay buffer is one version after the one before it,
/// so versions strictly increase with exactly one frame per version, and a
/// frame is a keyframe exactly when its version is a multiple of the
/// keyframe period. The newest frame is at the current version.
pub proof fn lemma_replay_buffer_ordered(s: &AppState)
    requires
        s.wf(),
    ensures
        s.frames().len() >= 1,
        s.frames().last().version() == s.spec_version(),
        forall|k: int|
            0 <= k < s.frames().len() ==> #[trigger] s.frames()[k].version() == s.frames()[0].version()
                + k,
        forall|i: int, j: int|
            0 <= i < j < s.frames().len() ==> s.frames()[i].version() < s.frames()[j].version(),
        forall|k: int|
            0 <= k < s.frames().len() ==> (#[trigger] s.frames()[k] is Key <==> s.frames()[k].version()
                % s.spec_keyframe_interval() == 0),
{
    reveal(AppState::wf);
    assert(s.frames()[0].version() == s.first_version());
    assert(s.frames().last() == s.frames()[s.frames().len() - 1]);
}

/// A tick with no changes leaves the bits as they are and has no effective
/// change, so its frame is an empty deltaframe, or a keyframe on a keyframe
/// tick; the version still advances by one (see `AppState::update`).
pub proof fn lemma_empty_batch(bits: Seq<bool>)
    ensures
        apply_changes(bits, Seq::empty()) == bits,
        effective_changes(bits, Seq::empty()) == Seq::<(usize, bool)>::empty(),
{
}

/// Changes whose index is out of range have no effect: dropping them from a
/// batch changes neither the resulting bits nor the effective changes, and no
/// effective change is out of range.
pub proof fn lemma_out_of_range_ignored(bits: Seq<bool>, batch: Seq<(usize, bool)>)
    ensures
        apply_changes(bits, batch.filter(|c: (usize, bool)| (c.0 as int) < bits.len()))
            == apply_changes(bits, batch),
        effective_changes(bits, batch.filter(|c: (usize, bool)| (c.0 as int) < bits.len()))
            == effective_changes(bits, batch),
        forall|k: int|
            0 <= k < effective_changes(bits, batch).len() ==> (#[trigger] effective_changes(
                bits,
                batch,
            )[k]).0 < bits.len(),
    decreases batch.len(),
{
    reveal(Seq::filter);
    lemma_effective_changes(bits, batch);
    if batch.len() > 0 {
        let pred = |c: (usize, bool)| (c.0 as int) < bits.len();
        let prefix = batch.drop_last();
        lemma_out_of_range_ignored(bits, prefix);
        lemma_apply_changes_len(bits, prefix);
        let fp = prefix.filter(pred);
        assert(batch.filter(pred) == if pred(batch.last()) {
            fp.push(batch.last())
        } else {
            fp
        });
        if pred(batch.last()) {
            assert(fp.push(batch.last()).drop_last() =~= fp);
        }
    }
}

/// Replaying frames from a snapshot: for two buffered versions `a < b`,
/// applying the frames after `a` up to `b`, in order, to the bits at `a`
/// gives the bits at `b`. The bits after the newest frame are the current
/// bits.
pub proof fn lemma_reconstruct(s: &AppState, a: int, b: int)
    requires
        s.wf(),
        0 <= a < b < s.frames().len(),
    ensures
        apply_frames(s.snapshots()[a], s.frames().subrange(a + 1, b + 1)) == s.snapshots()[b],
        s.snapshots()[s.frames().len() - 1] == s.bits(),
        s.frames()[a].version() < s.frames()[b].version(),
    decreases b - a,
{
    reveal(AppState::wf);
    let fs = s.frames().subrange(a + 1, b + 1);
    assert(fs.last() == s.frames()[b]);
    assert(s.history@[b] == apply_frame(s.history@[b - 1], s.frames()[b]));
    if b == a + 1 {
        assert(fs.drop_last() =~= Seq::<FrameModel>::empty());
        assert(apply_frames(s.history@[a], fs.drop_last()) == s.history@[a]);
    } else {
        lemma_reconstruct(s, a, b - 1);
        assert(fs.drop_last() =~= s.frames().subrange(a + 1, b));
    }
}

/// A subscriber that receives a keyframe and then, in order, frames each of
/// which takes the bitset after its predecessor to the next bitset, holds
/// after each frame exactly the bitset that frame was made for.
pub proof fn lemma_stream_reconstructs(
    start: Seq<bool>,
    frames: Seq<FrameModel>,
    states: Seq<Seq<bool>>,
)
    requires
        frames.len() == states.len(),
        frames.len() >= 1,
        frames[0] is Key,
        packs(frames[0]->Key_data, states[0]),
        start.len() == states[0].len(),
        forall|k: int| 1 <= k < frames.len() ==> #[trigger] states[k] == apply_frame(states[k - 1], frames[k]),
    ensures
        forall|k: int| 0 <= k < frames.len() ==> #[trigger] apply_frames(start, frames.take(k + 1)) == states[k],
    decreases frames.len(),
{
    if frames.len() == 1 {
        assert(frames.take(1).drop_last() =~= Seq::<FrameModel>::empty());
        assert(apply_frames(start, frames.take(1).drop_last()) == start);
        lemma_keyframe_restores(frames[0]->Key_data, states[0], start);
        assert(frames.take(1).last() == frames[0]);
        assert(apply_frames(start, frames.take(0int + 1)) == states[0]);
    } else {
        let (fs, ss) = (frames.drop_last(), states.drop_last());
        lemma_stream_reconstructs(start, fs, ss);
        assert forall|k: int| 0 <= k < frames.len() implies #[trigger] apply_frames(start, frames.take(k + 1)) == states[k] by {
            if k < frames.len() - 1 {
                assert(frames.take(k + 1) =~= fs.take(k + 1));
            } else {
                assert(frames.take(k + 1).drop_last() =~= fs.take(k));
                assert(fs.take(k) =~= fs.take((k - 1) + 1));
                assert(apply_frames(start, fs.take((k - 1) + 1)) == ss[k - 1]);
                assert(frames.take(k + 1).last() == frames[k]);
                assert(states[k] == apply_frame(states[k - 1], frames[k]));
            }
        }
    }
}

} // verus!
