//! The per-subscriber stream: which frames go out, so that the versions a
//! subscriber receives never repeat or go back.

use crate::frame::Frame;
use crate::state::AppState;
use vstd::prelude::*;

verus! {

/// The versions of `frames`, in order.
pub open spec fn versions(frames: Seq<Frame>) -> Seq<usize> {
    frames.map_values(|f: Frame| f@.version())
}

/// Whether `s` is strictly increasing.
pub open spec fn strictly_increasing(s: Seq<usize>) -> bool {
    forall|i: int, j: int| 0 <= i < j < s.len() ==> s[i] < s[j]
}

/// One subscriber's outbound stream.
pub struct Session {
    high_water: usize,
    /// The versions sent since the opening keyframe or the latest catch-up
    /// answer, oldest first.
    sent: Ghost<Seq<usize>>,
}

impl Session {
    /// The highest version sent so far.
    pub closed spec fn spec_high_water(&self) -> usize {
        self.high_water
    }

    /// The versions sent since the opening keyframe or the latest catch-up
    /// answer.
    pub closed spec fn sent(&self) -> Seq<usize> {
        self.sent@
    }

    pub closed spec fn wf(&self) -> bool {
        &&& strictly_increasing(self.sent@)
        &&& forall|i: int| 0 <= i < self.sent@.len() ==> #[trigger] self.sent@[i] <= self.high_water
    }

    /// A stream that has just sent `initial`, the opening keyframe.
    pub fn open(initial: &Frame) -> (r: Session)
        ensures
            r.wf(),
            r.spec_high_water() == initial@.version(),
            r.sent() == seq![initial@.version()],
    {
        let v = initial.version();
        Session { high_water: v, sent: Ghost(Seq::empty().push(v)) }
    }

    /// The highest version sent so far.
    pub fn high_water(&self) -> (r: usize)
        ensures
            r == self.spec_high_water(),
    {
        self.high_water
    }

    /// Whether a frame of the live stream goes out: only one newer than
    /// everything sent so far. Records it when it does.
    pub fn forward(&mut self, frame: &Frame) -> (r: bool)
        requires
            old(self).wf(),
        ensures
            final(self).wf(),
            r == (frame@.version() > old(self).spec_high_water()),
            r ==> final(self).spec_high_water() == frame@.version() && final(self).sent() == old(
                self,
            ).sent().push(frame@.version()),
            !r ==> *final(self) == *old(self),
    {
        let v = frame.version();
        if v > self.high_water {
            self.high_water = v;
            self.sent = Ghost(self.sent@.push(v));
            true
        } else {
            false
        }
    }

    /// Answers a catch-up request from a subscriber at `client_version` with
    /// the frames of `AppState::catch_up`, and raises the high-water mark to
    /// the newest of them, so that the live frames they cover are not sent
    /// again.
    pub fn handle_client_reconnect(
        &mut self,
        state: &AppState,
        client_version: usize,
        timestamp: u64,
    ) -> (r: Vec<Frame>)
        requires
            old(self).wf(),
            state.wf(),
        ensures
            final(self).wf(),
            client_version == state.spec_version() ==> r@.len() == 0 && *final(self) == *old(self),
            client_version != state.spec_version() && state.replays_by_keyframe(client_version)
                ==> {
                &&& r@.len() == 1
                &&& r@[0]@ is Key
                &&& r@[0]@.version() == state.spec_version()
                &&& r@[0]@.timestamp() == timestamp
                &&& crate::bits::packs(r@[0]@->Key_data, state.bits())
            },
            client_version != state.spec_version() && !state.replays_by_keyframe(client_version)
                ==> {
                &&& r@.len() == state.spec_version() - client_version
                &&& r@.map_values(|f: Frame| f@) == state.frames().subrange(
                    client_version + 1 - state.first_version(),
                    state.frames().len() as int,
                )
            },
            r@.len() > 0 ==> final(self).sent() == versions(r@),
            r@.len() > 0 ==> final(self).spec_high_water() >= state.spec_version(),
            final(self).spec_high_water() >= old(self).spec_high_water(),
    {
        let frames = state.catch_up(client_version, timestamp);
        if frames.len() > 0 {
            let top = frames[frames.len() - 1].version();
            if top > self.high_water {
                self.high_water = top;
            }
            self.sent = Ghost(versions(frames@));
            proof {
                if client_version != state.spec_version() && !state.replays_by_keyframe(client_version) {
                    assert forall|i: int, j: int| 0 <= i < j < self.sent@.len() implies self.sent@[i]
                        < self.sent@[j] by {
                        assert(frames@[i]@.version() == client_version + 1 + i);
                        assert(frames@[j]@.version() == client_version + 1 + j);
                    }
                    assert forall|i: int| 0 <= i < self.sent@.len() implies #[trigger] self.sent@[i]
                        <= self.high_water by {
                        assert(frames@[i]@.version() == client_version + 1 + i);
                        assert(frames@[frames@.len() - 1]@.version() == client_version + 1 + (
                        frames@.len() - 1));
                    }
                }
            }
        }
        frames
    }
}

/// Whatever was sent since the opening keyframe or the latest catch-up
/// answer has strictly increasing versions.
pub proof fn lemma_stream_increasing(s: Session)
    requires
        s.wf(),
    ensures
        strictly_increasing(s.sent()),
        forall|i: int| 0 <= i < s.sent().len() ==> #[trigger] s.sent()[i] <= s.spec_high_water(),
{
}

} // verus!
