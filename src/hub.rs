//! The broadcast hub: each subscriber has its own bounded queue of frames;
//! a subscriber whose queue is full when a frame is published is dropped, so
//! that no subscriber ever misses a frame while it stays registered.

use crate::frame::{Frame, FrameModel};
use std::collections::VecDeque;
use vstd::prelude::*;

verus! {

/// A subscriber's identity and the frames queued for it, oldest first.
pub type QueueModel = (u64, Seq<FrameModel>);

/// The subscribers after publishing `f`: each whose queue had room gets `f`
/// at the back of its queue; each whose queue was full is dropped.
pub open spec fn published(subs: Seq<QueueModel>, f: FrameModel, capacity: usize) -> Seq<QueueModel>
    decreases subs.len(),
{
    if subs.len() == 0 {
        subs
    } else {
        let prev = published(subs.drop_last(), f, capacity);
        let (id, q) = subs.last();
        if q.len() < capacity {
            prev.push((id, q.push(f)))
        } else {
            prev
        }
    }
}

/// Whether `id` is registered in `subs`.
pub open spec fn registered(subs: Seq<QueueModel>, id: u64) -> bool {
    exists|k: int| 0 <= k < subs.len() && subs[k].0 == id
}

/// Publishing keeps identities distinct and below `next_id`, and keeps every
/// queue within the capacity; each remaining subscriber was registered before.
proof fn lemma_published_wf(subs: Seq<QueueModel>, f: FrameModel, capacity: usize, next_id: u64)
    requires
        forall|i: int, j: int| 0 <= i < j < subs.len() ==> subs[i].0 != subs[j].0,
        forall|i: int| 0 <= i < subs.len() ==> #[trigger] subs[i].0 < next_id,
        forall|i: int| 0 <= i < subs.len() ==> (#[trigger] subs[i]).1.len() <= capacity,
    ensures
        ({
            let p = published(subs, f, capacity);
            &&& forall|i: int, j: int| 0 <= i < j < p.len() ==> p[i].0 != p[j].0
            &&& forall|i: int| 0 <= i < p.len() ==> #[trigger] p[i].0 < next_id
            &&& forall|i: int| 0 <= i < p.len() ==> (#[trigger] p[i]).1.len() <= capacity
            &&& forall|i: int| 0 <= i < p.len() ==> registered(subs, #[trigger] p[i].0)
        }),
    decreases subs.len(),
{
    if subs.len() > 0 {
        let s0 = subs.drop_last();
        lemma_published_wf(s0, f, capacity, next_id);
        let p0 = published(s0, f, capacity);
        let p = published(subs, f, capacity);
        assert forall|i: int| 0 <= i < p0.len() implies registered(subs, #[trigger] p0[i].0) by {
            let k = choose|k: int| 0 <= k < s0.len() && s0[k].0 == p0[i].0;
            assert(subs[k] == s0[k]);
        }
        assert forall|i: int| 0 <= i < p0.len() implies #[trigger] p0[i].0 != subs.last().0 by {
            let k = choose|k: int| 0 <= k < s0.len() && s0[k].0 == p0[i].0;
            assert(subs[k] == s0[k]);
        }
        if subs.last().1.len() < capacity {
            assert(p[p.len() - 1].0 == subs[subs.len() - 1].0);
        }
    }
}

struct Subscriber {
    id: u64,
    queue: VecDeque<Frame>,
}

impl Subscriber {
    closed spec fn model(&self) -> QueueModel {
        (self.id, self.queue@.map_values(|f: Frame| f@))
    }
}

/// The set of subscribers with their queues.
pub struct Hub {
    subscribers: Vec<Subscriber>,
    next_id: u64,
    queue_capacity: usize,
}

impl Hub {
    /// The subscribers in order of registration, with their queues.
    pub closed spec fn subs(&self) -> Seq<QueueModel> {
        self.subscribers@.map_values(|s: Subscriber| s.model())
    }

    pub closed spec fn spec_queue_capacity(&self) -> usize {
        self.queue_capacity
    }

    pub closed spec fn spec_next_id(&self) -> u64 {
        self.next_id
    }

    /// Identities are distinct and below the next one to hand out, and no
    /// queue holds more than the capacity.
    pub closed spec fn wf(&self) -> bool {
        let s = self.subs();
        &&& self.queue_capacity >= 1
        &&& forall|i: int, j: int| 0 <= i < j < s.len() ==> s[i].0 != s[j].0
        &&& forall|i: int| 0 <= i < s.len() ==> #[trigger] s[i].0 < self.next_id
        &&& forall|i: int| 0 <= i < s.len() ==> (#[trigger] s[i]).1.len() <= self.queue_capacity
    }

    /// A hub with no subscribers whose queues hold up to `queue_capacity`
    /// frames.
    pub fn new(queue_capacity: usize) -> (r: Hub)
        requires
            queue_capacity >= 1,
        ensures
            r.wf(),
            r.subs().len() == 0,
            r.spec_queue_capacity() == queue_capacity,
    {
        let r = Hub { subscribers: Vec::new(), next_id: 0, queue_capacity };
        assert(r.subs() =~= Seq::<QueueModel>::empty());
        r
    }

    /// The number of registered subscribers.
    pub fn subscriber_count(&self) -> (r: usize)
        ensures
            r == self.subs().len(),
    {
        self.subscribers.len()
    }

    /// Whether another subscriber can be registered: identities are not
    /// reused, so they run out after `u64::MAX` subscriptions.
    pub fn can_subscribe(&self) -> (r: bool)
        ensures
            r == (self.spec_next_id() < u64::MAX),
    {
        self.next_id < u64::MAX
    }

    /// Registers a new subscriber with an empty queue; it receives every frame
    /// published from now on. Returns its identity.
    pub fn subscribe(&mut self) -> (id: u64)
        requires
            old(self).wf(),
            old(self).spec_next_id() < u64::MAX,
        ensures
            final(self).wf(),
            !registered(old(self).subs(), id),
            final(self).subs() == old(self).subs().push((id, Seq::empty())),
            final(self).spec_queue_capacity() == old(self).spec_queue_capacity(),
            final(self).spec_next_id() == old(self).spec_next_id() + 1,
    {
        let id = self.next_id;
        let ghost before = self.subs();
        let sub = Subscriber { id, queue: VecDeque::new() };
        self.subscribers.push(sub);
        self.next_id = id + 1;
        proof {
            assert(sub.model().1 =~= Seq::<FrameModel>::empty());
            assert(self.subs() =~= before.push((id, Seq::empty())));
        }
        id
    }

    /// Queues `frame` for every subscriber with room in its queue and drops
    /// every subscriber whose queue is full. Never waits.
    pub fn publish(&mut self, frame: &Frame)
        requires
            old(self).wf(),
        ensures
            final(self).wf(),
            final(self).subs() == published(old(self).subs(), frame@, old(self).spec_queue_capacity()),
            final(self).spec_queue_capacity() == old(self).spec_queue_capacity(),
            final(self).spec_next_id() == old(self).spec_next_id(),
    {
        let ghost start = self.subs();
        let ghost cap = self.queue_capacity;
        let n = self.subscribers.len();
        let mut i: usize = 0;
        let mut j: usize = 0;
        while j < n
            invariant
                n == start.len(),
                self.queue_capacity == cap,
                self.next_id == old(self).next_id,
                cap >= 1,
                start == old(self).subs(),
                old(self).wf(),
                j <= start.len(),
                i <= j,
                self.subs() == published(start.take(j as int), frame@, cap) + start.skip(j as int),
                published(start.take(j as int), frame@, cap).len() == i,
            decreases start.len() - j,
        {
            proof {
                assert(start.take(j + 1).drop_last() =~= start.take(j as int));
                assert(self.subs().len() == self.subscribers@.len());
                assert(start.skip(j as int).len() == n - j);
                assert(self.subs()[i as int] == start[j as int]);
            }
            let ghost pre = self.subs();
            let ghost p = published(start.take(j as int), frame@, cap);
            proof {
                assert(start.take(j + 1).last() == start[j as int]);
                assert(pre.remove(i as int) =~= p + start.skip(j + 1));
            }
            let sub = self.subscribers.remove(i);
            proof {
                assert(self.subs() =~= pre.remove(i as int));
            }
            if sub.queue.len() < self.queue_capacity {
                let mut sub = sub;
                sub.queue.push_back(frame.duplicate());
                let ghost mid = self.subs();
                self.subscribers.insert(i, sub);
                i += 1;
                proof {
                    assert(sub.model() == (start[j as int].0, start[j as int].1.push(frame@))) by {
                        assert(sub.queue@.map_values(|f: Frame| f@) =~= start[j as int].1.push(frame@));
                    }
                    assert(self.subs() =~= mid.insert((i - 1) as int, sub.model()));
                    assert(published(start.take(j + 1), frame@, cap) == p.push(
                        (start[j as int].0, start[j as int].1.push(frame@)),
                    ));
                    assert(self.subs() =~= published(start.take(j + 1), frame@, cap) + start.skip(
                        j + 1,
                    ));
                }
            } else {
                proof {
                    assert(published(start.take(j + 1), frame@, cap) == p);
                    assert(self.subs() =~= published(start.take(j + 1), frame@, cap) + start.skip(
                        j + 1,
                    ));
                }
            }
            j += 1;
        }
        proof {
            assert(start.take(j as int) =~= start);
            assert(self.subs() =~= published(start, frame@, cap));
            lemma_published_wf(start, frame@, cap, self.next_id);
        }
    }

    /// Hands out and empties the queue of subscriber `id`; `None` when `id`
    /// is not registered, as after it was dropped.
    pub fn take(&mut self, id: u64) -> (r: Option<Vec<Frame>>)
        requires
            old(self).wf(),
        ensures
            final(self).wf(),
            final(self).spec_queue_capacity() == old(self).spec_queue_capacity(),
            final(self).spec_next_id() == old(self).spec_next_id(),
            !registered(old(self).subs(), id) ==> r is None && final(self).subs() == old(self).subs(),
            registered(old(self).subs(), id) ==> exists|k: int|
                {
                    &&& 0 <= k < old(self).subs().len()
                    &&& old(self).subs()[k].0 == id
                    &&& r is Some
                    &&& r->0@.map_values(|f: Frame| f@) == old(self).subs()[k].1
                    &&& final(self).subs() == old(self).subs().update(k, (id, Seq::<FrameModel>::empty()))
                },
    {
        let ghost start = self.subs();
        let mut k: usize = 0;
        while k < self.subscribers.len()
            invariant
                self.subs() == start,
                start == old(self).subs(),
                old(self).wf(),
                self.queue_capacity == old(self).queue_capacity,
                self.next_id == old(self).next_id,
                k <= self.subscribers@.len(),
                forall|w: int| 0 <= w < k ==> #[trigger] start[w].0 != id,
            decreases self.subscribers@.len() - k,
        {
            assert(self.subs()[k as int].0 == self.subscribers@[k as int].id);
            if self.subscribers[k].id == id {
                let mut sub = self.subscribers.remove(k);
                let mut out: Vec<Frame> = Vec::new();
                let ghost q = sub.queue@;
                while sub.queue.len() > 0
                    invariant
                        sub.id == id,
                        q == out@ + sub.queue@,
                    decreases sub.queue@.len(),
                {
                    match sub.queue.pop_front() {
                        Some(f) => {
                            out.push(f);
                            assert(q =~= out@ + sub.queue@);
                        },
                        None => {},
                    }
                }
                assert(out@ =~= q);
                self.subscribers.insert(k, sub);
                proof {
                    assert(sub.model().1 =~= Seq::<FrameModel>::empty());
                    assert(self.subs() =~= start.update(k as int, (id, Seq::<FrameModel>::empty())));
                    assert(start[k as int].1 =~= out@.map_values(|f: Frame| f@));
                }
                return Some(out);
            }
            k += 1;
        }
        None
    }

    /// Removes subscriber `id`, if registered.
    pub fn unsubscribe(&mut self, id: u64)
        requires
            old(self).wf(),
        ensures
            final(self).wf(),
            !registered(final(self).subs(), id),
            registered(old(self).subs(), id) ==> exists|k: int|
                0 <= k < old(self).subs().len() && old(self).subs()[k].0 == id && final(self).subs()
                    == old(self).subs().remove(k),
            !registered(old(self).subs(), id) ==> final(self).subs() == old(self).subs(),
            final(self).spec_queue_capacity() == old(self).spec_queue_capacity(),
            final(self).spec_next_id() == old(self).spec_next_id(),
    {
        let ghost start = self.subs();
        let mut k: usize = 0;
        while k < self.subscribers.len()
            invariant
                self.subs() == start,
                start == old(self).subs(),
                old(self).wf(),
                self.queue_capacity == old(self).queue_capacity,
                self.next_id == old(self).next_id,
                k <= self.subscribers@.len(),
                forall|w: int| 0 <= w < k ==> #[trigger] start[w].0 != id,
            decreases self.subscribers@.len() - k,
        {
            assert(self.subs()[k as int].0 == self.subscribers@[k as int].id);
            if self.subscribers[k].id == id {
                self.subscribers.remove(k);
                proof {
                    assert(self.subs() =~= start.remove(k as int));
                    assert forall|w: int| 0 <= w < self.subs().len() implies #[trigger] self.subs()[w].0
                        != id by {
                        if w >= k {
                            assert(self.subs()[w] == start[w + 1]);
                        }
                    }
                }
                return;
            }
            k += 1;
        }
    }
}

} // verus!
