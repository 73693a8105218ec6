//! The publisher: the state and the hub under one owner, so that a tick
//! updates the bitset, buffers its frame and fans it out as one step, and a
//! subscription and its opening keyframe are taken at one version.

use crate::frame::{apply_changes, effective_changes, Frame, FrameModel};
use crate::hub::{published, registered, Hub, QueueModel};
use crate::session::{versions, Session};
use crate::state::{tick_frame, AppState};
use vstd::prelude::*;

verus! {

/// The high-water mark after offering the frames `q` to a stream at `hw`.
pub open spec fn high_after(hw: usize, q: Seq<FrameModel>) -> usize
    decreases q.len(),
{
    if q.len() == 0 {
        hw
    } else {
        let h = high_after(hw, q.drop_last());
        if q.last().version() > h {
            q.last().version()
        } else {
            h
        }
    }
}

/// The frames of `q` that a stream at `hw` sends: each newer than all sent
/// before it.
pub open spec fn forwarded(hw: usize, q: Seq<FrameModel>) -> Seq<FrameModel>
    decreases q.len(),
{
    if q.len() == 0 {
        Seq::empty()
    } else {
        let prev = forwarded(hw, q.drop_last());
        if q.last().version() > high_after(hw, q.drop_last()) {
            prev.push(q.last())
        } else {
            prev
        }
    }
}

/// The bitset's state with the hub that fans its frames out.
pub struct Publisher {
    state: AppState,
    hub: Hub,
}

impl Publisher {
    pub closed spec fn spec_state(&self) -> AppState {
        self.state
    }

    pub closed spec fn spec_hub(&self) -> Hub {
        self.hub
    }

    pub open spec fn wf(&self) -> bool {
        self.spec_state().wf() && self.spec_hub().wf()
    }

    pub fn new(state: AppState, hub: Hub) -> (r: Publisher)
        ensures
            r.spec_state() == state,
            r.spec_hub() == hub,
    {
        Publisher { state, hub }
    }

    /// The state.
    pub fn state(&self) -> (r: &AppState)
        ensures
            *r == self.spec_state(),
    {
        &self.state
    }

    /// One tick: updates the state with `changes` and publishes the new frame
    /// to every subscriber.
    pub fn tick(&mut self, changes: Vec<(usize, bool)>, timestamp: u64) -> (frame: Frame)
        requires
            old(self).wf(),
            old(self).spec_state().spec_version() < usize::MAX,
        ensures
            final(self).wf(),
            final(self).spec_state().spec_version() == old(self).spec_state().spec_version() + 1,
            final(self).spec_state().frames().last() == frame@,
            final(self).spec_state().bits() == apply_changes(old(self).spec_state().bits(), changes@),
            tick_frame(
                frame@,
                final(self).spec_state().spec_version(),
                timestamp,
                old(self).spec_state().spec_keyframe_interval(),
                final(self).spec_state().bits(),
                effective_changes(old(self).spec_state().bits(), changes@),
            ),
            final(self).spec_hub().subs() == published(
                old(self).spec_hub().subs(),
                frame@,
                old(self).spec_hub().spec_queue_capacity(),
            ),
            final(self).spec_hub().spec_queue_capacity() == old(self).spec_hub().spec_queue_capacity(),
            crate::frame::apply_frame(old(self).spec_state().bits(), frame@)
                == final(self).spec_state().bits(),
    {
        let frame = self.state.update(changes, timestamp);
        self.hub.publish(&frame);
        frame
    }

    /// Whether another subscriber can be registered.
    pub fn can_subscribe(&self) -> (r: bool)
        ensures
            r == (self.spec_hub().spec_next_id() < u64::MAX),
    {
        self.hub.can_subscribe()
    }

    /// Opens a subscription: registers a queue with the hub and takes the
    /// keyframe of the current version at the same point, so that the queue
    /// receives exactly the frames after that keyframe. Returns the
    /// subscriber's identity, the keyframe, and its stream.
    pub fn subscribe(&mut self, timestamp: u64) -> (r: (u64, Frame, Session))
        requires
            old(self).wf(),
            old(self).spec_hub().spec_next_id() < u64::MAX,
        ensures
            final(self).wf(),
            final(self).spec_state() == old(self).spec_state(),
            !registered(old(self).spec_hub().subs(), r.0),
            final(self).spec_hub().subs() == old(self).spec_hub().subs().push((r.0, Seq::empty())),
            final(self).spec_hub().spec_queue_capacity() == old(self).spec_hub().spec_queue_capacity(),
            r.1@ is Key,
            r.1@.version() == old(self).spec_state().spec_version(),
            crate::bits::packs(r.1@->Key_data, old(self).spec_state().bits()),
            r.2.wf(),
            r.2.spec_high_water() == r.1@.version(),
    {
        let id = self.hub.subscribe();
        let frame = self.state.snapshot_frame(timestamp);
        let session = Session::open(&frame);
        (id, frame, session)
    }

    /// Takes the frames queued for subscriber `id` and keeps those its stream
    /// sends: each newer than everything sent before. `None` when the
    /// subscriber was dropped.
    pub fn pull(&mut self, id: u64, session: &mut Session) -> (r: Option<Vec<Frame>>)
        requires
            old(self).wf(),
            old(session).wf(),
        ensures
            final(self).wf(),
            final(self).spec_state() == old(self).spec_state(),
            final(session).wf(),
            !registered(old(self).spec_hub().subs(), id) ==> r is None && *final(session)
                == *old(session) && final(self).spec_hub().subs() == old(self).spec_hub().subs(),
            registered(old(self).spec_hub().subs(), id) ==> exists|k: int|
                {
                    &&& 0 <= k < old(self).spec_hub().subs().len()
                    &&& old(self).spec_hub().subs()[k].0 == id
                    &&& r is Some
                    &&& r->0@.map_values(|f: Frame| f@) == forwarded(
                        old(session).spec_high_water(),
                        old(self).spec_hub().subs()[k].1,
                    )
                    &&& final(self).spec_hub().subs() == old(self).spec_hub().subs().update(
                        k,
                        (id, Seq::<FrameModel>::empty()),
                    )
                },
            r is Some ==> final(session).sent() == old(session).sent() + versions(r->0@),
            final(self).spec_hub().spec_queue_capacity() == old(self).spec_hub().spec_queue_capacity(),
    {
        match self.hub.take(id) {
            None => None,
            Some(queued) => {
                let ghost q = queued@.map_values(|f: Frame| f@);
                let ghost hw0 = session.spec_high_water();
                let ghost sent0 = session.sent();
                let mut out: Vec<Frame> = Vec::new();
                let mut k: usize = 0;
                while k < queued.len()
                    invariant
                        k <= queued@.len(),
                        q == queued@.map_values(|f: Frame| f@),
                        session.wf(),
                        session.spec_high_water() == high_after(hw0, q.take(k as int)),
                        out@.map_values(|f: Frame| f@) == forwarded(hw0, q.take(k as int)),
                        session.sent() == sent0 + versions(out@),
                    decreases queued@.len() - k,
                {
                    proof {
                        assert(q.take(k + 1).drop_last() =~= q.take(k as int));
                        assert(q.take(k + 1).last() == queued@[k as int]@);
                    }
                    let ghost before = out@;
                    if session.forward(&queued[k]) {
                        out.push(queued[k].duplicate());
                        proof {
                            assert(out@.map_values(|f: Frame| f@) =~= before.map_values(|f: Frame| f@).push(
                                queued@[k as int]@,
                            ));
                            assert(versions(out@) =~= versions(before).push(queued@[k as int]@.version()));
                        }
                    }
                    k += 1;
                }
                proof {
                    assert(q.take(k as int) =~= q);
                }
                Some(out)
            },
        }
    }

    /// Answers a catch-up request on `session` (see
    /// `Session::handle_client_reconnect`).
    pub fn catch_up(&self, session: &mut Session, client_version: usize, timestamp: u64) -> (r: Vec<
        Frame,
    >)
        requires
            self.wf(),
            old(session).wf(),
        ensures
            final(session).wf(),
            client_version == self.spec_state().spec_version() ==> r@.len() == 0,
            client_version != self.spec_state().spec_version() && self.spec_state().replays_by_keyframe(
                client_version,
            ) ==> r@.len() == 1 && r@[0]@ is Key && r@[0]@.version() == self.spec_state().spec_version(),
            client_version != self.spec_state().spec_version() && !self.spec_state().replays_by_keyframe(
                client_version,
            ) ==> r@.map_values(|f: Frame| f@) == self.spec_state().frames().subrange(
                client_version + 1 - self.spec_state().first_version(),
                self.spec_state().frames().len() as int,
            ),
            r@.len() > 0 ==> final(session).sent() == versions(r@),
            r@.len() > 0 ==> final(session).spec_high_water() >= self.spec_state().spec_version(),
            final(session).spec_high_water() >= old(session).spec_high_water(),
    {
        session.handle_client_reconnect(&self.state, client_version, timestamp)
    }

    /// Removes subscriber `id` from the hub.
    pub fn unsubscribe(&mut self, id: u64)
        requires
            old(self).wf(),
        ensures
            final(self).wf(),
            final(self).spec_state() == old(self).spec_state(),
            !registered(final(self).spec_hub().subs(), id),
    {
        self.hub.unsubscribe(id)
    }
}

} // verus!
