//! The event bus: named subscriptions with stable handles. Each subscription
//! owns a queue; publishing an event appends it to the queue of every
//! subscription registered under that name, in subscription order, and the
//! consumer drains its queue when it is ready. Handlers therefore never run
//! while the engine is borrowed.

use vstd::prelude::*;
use crate::grid_engine::EventName;
use crate::grid_engine::EventValue;
use crate::model::EventModel;

verus! {

/// What an event name type must offer: equality and hashing.
pub trait EventNameTrait: Eq + core::hash::Hash {

}

impl<T: Eq + core::hash::Hash> EventNameTrait for T {

}

/// What an event payload type must offer: equality and hashing.
pub trait EventValueTrait: Eq + core::hash::Hash {

}

impl<T: Eq + core::hash::Hash> EventValueTrait for T {

}

/// The model of one subscription.
pub struct SubModel {
    pub name: EventName,
    pub id: int,
    pub queue: Seq<EventModel>,
}

/// The model of the whole bus.
pub struct BusModel {
    pub subs: Seq<SubModel>,
    pub next_id: int,
}

/// One live subscription: the name it listens under, its handle, and the
/// events published to it that were not yet taken.
pub struct Subscription {
    pub name: EventName,
    pub id: u64,
    pub queue: Vec<EventValue>,
}

/// The views of a sequence of event payloads.
pub open spec fn events_view(s: Seq<EventValue>) -> Seq<EventModel> {
    s.map_values(|v: EventValue| v@)
}

impl View for Subscription {
    type V = SubModel;

    open spec fn view(&self) -> SubModel {
        SubModel { name: self.name, id: self.id as int, queue: events_view(self.queue@) }
    }
}

/// The views of a sequence of subscriptions.
pub open spec fn subs_view(s: Seq<Subscription>) -> Seq<SubModel> {
    s.map_values(|v: Subscription| v@)
}

/// The subscriptions without the one registered under the given name with
/// the given handle.
pub open spec fn subs_without(subs: Seq<SubModel>, name: EventName, id: int) -> Seq<SubModel>
    decreases subs.len(),
{
    if subs.len() == 0 {
        Seq::empty()
    } else if subs[0].name == name && subs[0].id == id {
        subs_without(subs.skip(1), name, id)
    } else {
        seq![subs[0]] + subs_without(subs.skip(1), name, id)
    }
}

/// The subscriptions after an event is published: every queue registered
/// under the name grows by the event, every other is untouched.
pub open spec fn subs_published(
    subs: Seq<SubModel>,
    name: EventName,
    v: EventModel,
) -> Seq<SubModel> {
    subs.map_values(
        |s: SubModel|
            if s.name == name {
                SubModel { name: s.name, id: s.id, queue: s.queue.push(v) }
            } else {
                s
            },
    )
}

/// The bus invariant: every handle was drawn from the counter, so the next
/// handle is fresh.
pub open spec fn bus_wf(b: BusModel) -> bool {
    forall|i: int| 0 <= i < b.subs.len() ==> (#[trigger] b.subs[i]).id < b.next_id
}

/// The first position holding the given handle, or the number of
/// subscriptions when none does.
pub open spec fn find_sub(subs: Seq<SubModel>, id: int) -> int
    decreases subs.len(),
{
    if subs.len() == 0 {
        0
    } else if subs[0].id == id {
        0
    } else {
        1 + find_sub(subs.skip(1), id)
    }
}

pub proof fn lemma_find_sub(subs: Seq<SubModel>, id: int)
    ensures
        0 <= find_sub(subs, id) <= subs.len(),
        find_sub(subs, id) < subs.len() ==> subs[find_sub(subs, id)].id == id,
        forall|i: int| 0 <= i < find_sub(subs, id) ==> (#[trigger] subs[i]).id != id,
        find_sub(subs, id) == subs.len() ==> forall|i: int|
            0 <= i < subs.len() ==> (#[trigger] subs[i]).id != id,
    decreases subs.len(),
{
    if subs.len() > 0 && subs[0].id != id {
        lemma_find_sub(subs.skip(1), id);
        assert(forall|i: int| 1 <= i < subs.len() ==> subs[i] == subs.skip(1)[i - 1]);
    }
}

/// A named-event subscription registry with stable per-subscription handles.
pub struct EventListener {
    subs: Vec<Subscription>,
    next_id: u64,
}

impl View for EventListener {
    type V = BusModel;

    closed spec fn view(&self) -> BusModel {
        BusModel { subs: subs_view(self.subs@), next_id: self.next_id as int }
    }
}

impl Default for EventListener {
    /// An empty bus.
    fn default() -> (r: EventListener)
        ensures
            r@.subs.len() == 0,
            r@.next_id == 0,
            bus_wf(r@),
    {
        EventListener { subs: Vec::new(), next_id: 0 }
    }
}

impl EventListener {
    /// Whether the bus can still hand out a fresh handle.
    pub fn has_free_handle(&self) -> (r: bool)
        ensures
            r == (self@.next_id < u64::MAX),
    {
        self.next_id < u64::MAX
    }

    /// Registers a listener under the given event name and returns its
    /// handle, which no other subscription of this bus carries.
    pub fn add_listener(&mut self, event: EventName) -> (id: u64)
        requires
            old(self)@.next_id < u64::MAX,
            bus_wf(old(self)@),
        ensures
            id as int == old(self)@.next_id,
            final(self)@.next_id == old(self)@.next_id + 1,
            final(self)@.subs == old(self)@.subs.push(
                SubModel { name: event, id: id as int, queue: Seq::empty() },
            ),
            bus_wf(final(self)@),
    {
        let id = self.next_id;
        self.next_id = self.next_id + 1;
        self.subs.push(Subscription { name: event, id, queue: Vec::new() });
        proof {
            assert(events_view(Seq::<EventValue>::empty()) =~= Seq::<EventModel>::empty());
            assert(subs_view(self.subs@) =~~= subs_view(old(self).subs@).push(
                SubModel { name: event, id: id as int, queue: Seq::empty() },
            ));
        }
        id
    }

    /// Drops the subscription registered under the given name with the given
    /// handle; with an unknown handle nothing changes.
    pub fn remove_listener(&mut self, event: EventName, id: u64)
        ensures
            final(self)@.subs == subs_without(old(self)@.subs, event, id as int),
            final(self)@.next_id == old(self)@.next_id,
            bus_wf(old(self)@) ==> bus_wf(final(self)@),
    {
        let ghost full = subs_view(self.subs@);
        let mut kept: Vec<Subscription> = Vec::new();
        proof {
            assert(full.skip(0) =~= full);
            assert(subs_view(kept@) =~~= Seq::<SubModel>::empty());
        }
        let ghost consumed: int = 0;
        while self.subs.len() > 0
            invariant
                0 <= consumed <= full.len(),
                subs_view(self.subs@) =~~= full.skip(consumed),
                self.subs@.len() == full.len() - consumed,
                self.next_id == old(self).next_id,
                subs_without(full, event, id as int) =~~= subs_view(kept@) + subs_without(
                    full.skip(consumed),
                    event,
                    id as int,
                ),
                forall|q: int| 0 <= q < kept@.len()
                    ==> exists|p: int|
                        0 <= p < full.len() && (#[trigger] subs_view(kept@)[q]) == full[p],
            decreases self.subs@.len(),
        {
            let ghost prev = self.subs@;
            let sub = self.subs.remove(0);
            proof {
                assert(subs_view(prev) =~~= full.skip(consumed));
                assert(sub@ == subs_view(prev)[0]);
                assert(full.skip(consumed)[0] == full[consumed]);
                assert(sub@ == full[consumed]);
                assert(self.subs@ =~= prev.remove(0));
                assert(forall|p: int| 0 <= p < self.subs@.len()
                    ==> self.subs@[p] == prev[p + 1]);
                assert(forall|p: int| 0 <= p < self.subs@.len()
                    ==> #[trigger] full.skip(consumed + 1)[p] == full[consumed + 1 + p]
                        && full.skip(consumed)[p + 1] == full[consumed + 1 + p]);
                assert(subs_view(self.subs@) =~~= full.skip(consumed + 1));
                assert(full.skip(consumed).skip(1) =~= full.skip(consumed + 1));
            }
            if !(sub.name == event && sub.id == id) {
                let ghost before = subs_view(kept@);
                kept.push(sub);
                proof {
                    assert(subs_view(kept@) =~~= before.push(full[consumed]));
                    assert(subs_view(kept@) + subs_without(full.skip(consumed + 1), event,
                        id as int) =~~= before + (seq![full[consumed]] + subs_without(
                            full.skip(consumed + 1), event, id as int)));
                    assert(forall|q: int| 0 <= q < kept@.len() - 1
                        ==> #[trigger] subs_view(kept@)[q] == before[q]);
                    assert(subs_view(kept@)[kept@.len() - 1] == full[consumed]);
                }
            }
            proof {
                consumed = consumed + 1;
            }
        }
        proof {
            assert(full.skip(full.len() as int).len() == 0);
            assert(subs_without(full, event, id as int) =~~= subs_view(kept@));
        }
        self.subs = kept;
    }

    /// Publishes an event: appends the payload to the queue of every
    /// subscription registered under the name, in subscription order.
    pub fn trigger_event(&mut self, event: EventName, value: EventValue)
        ensures
            final(self)@.subs == subs_published(old(self)@.subs, event, value@),
            final(self)@.next_id == old(self)@.next_id,
            bus_wf(old(self)@) ==> bus_wf(final(self)@),
    {
        let ghost full = subs_view(self.subs@);
        let n = self.subs.len();
        let mut i: usize = 0;
        while i < n
            invariant
                i <= n,
                n == self.subs@.len(),
                full.len() == n,
                self.next_id == old(self).next_id,
                forall|q: int| i <= q < n ==> subs_view(self.subs@)[q] == full[q],
                forall|q: int| 0 <= q < i
                    ==> subs_view(self.subs@)[q] == subs_published(full, event, value@)[q],
            decreases n - i,
        {
            let ghost before = subs_view(self.subs@);
            if self.subs[i].name == event {
                let v = value.duplicate();
                push_queue(&mut self.subs, i, v);
                proof {
                    assert(subs_view(self.subs@)[i as int].queue
                        =~~= full[i as int].queue.push(value@));
                    assert(subs_view(self.subs@)[i as int]
                        == subs_published(full, event, value@)[i as int]);
                    assert(forall|q: int| 0 <= q < n && q != i
                        ==> subs_view(self.subs@)[q] == before[q]);
                }
            }
            i = i + 1;
        }
        proof {
            assert(subs_view(self.subs@) =~~= subs_published(full, event, value@));
        }
    }

    /// Hands out and clears the queue of the subscription with the given
    /// handle; with an unknown handle nothing changes and nothing is
    /// returned.
    pub fn take_events(&mut self, id: u64) -> (r: Vec<EventValue>)
        ensures
            final(self)@.next_id == old(self)@.next_id,
            ({
                let k = find_sub(old(self)@.subs, id as int);
                if k < old(self)@.subs.len() {
                    &&& final(self)@.subs == old(self)@.subs.update(
                        k,
                        SubModel {
                            name: old(self)@.subs[k].name,
                            id: old(self)@.subs[k].id,
                            queue: Seq::empty(),
                        },
                    )
                    &&& events_view(r@) == old(self)@.subs[k].queue
                } else {
                    &&& final(self)@.subs == old(self)@.subs
                    &&& r@.len() == 0
                }
            }),
            bus_wf(old(self)@) ==> bus_wf(final(self)@),
    {
        let ghost full = old(self)@.subs;
        proof {
            lemma_find_sub(full, id as int);
        }
        let n = self.subs.len();
        let mut i: usize = 0;
        while i < n
            invariant
                i <= n,
                n == self.subs@.len(),
                full == subs_view(self.subs@),
                full == old(self)@.subs,
                full.len() == n,
                self.next_id == old(self).next_id,
                forall|p: int| 0 <= p < i ==> (#[trigger] full[p]).id != id as int,
            decreases n - i,
        {
            if self.subs[i].id == id {
                proof {
                    assert(full[i as int] == self.subs@[i as int]@);
                    assert(full[i as int].id == id as int);
                    lemma_find_sub(full, id as int);
                    assert(find_sub(full, id as int) == i) by {
                        lemma_find_sub(full, id as int);
                        let k = find_sub(full, id as int);
                        assert(full[i as int].id == id as int);
                        if k < full.len() {
                            assert(full[k].id == id as int);
                        }
                    }
                }
                let q = take_queue(&mut self.subs, i);
                proof {
                    assert(old(self)@.subs == full);
                    assert(find_sub(old(self)@.subs, id as int) == i);
                    assert(subs_view(self.subs@) == full.update(
                        i as int,
                        SubModel {
                            name: full[i as int].name,
                            id: full[i as int].id,
                            queue: Seq::empty(),
                        },
                    ));
                    if bus_wf(old(self)@) {
                        assert forall|p: int| 0 <= p < subs_view(self.subs@).len()
                            implies (#[trigger] subs_view(self.subs@)[p]).id
                                < old(self)@.next_id by {
                            assert(old(self)@.subs[p].id < old(self)@.next_id);
                            if p != i {
                                assert(subs_view(self.subs@)[p] == full[p]);
                            } else {
                                assert(subs_view(self.subs@)[p].id == full[p].id);
                            }
                        }
                    }
                }
                return q;
            }
            i = i + 1;
        }
        proof {
            lemma_find_sub(full, id as int);
            if find_sub(full, id as int) < full.len() {
                assert(full[find_sub(full, id as int)].id == id as int);
            }
        }
        Vec::new()
    }
}

/// Replaces the queue of one subscription with an empty one and hands the
/// old queue out.
fn take_queue(subs: &mut Vec<Subscription>, i: usize) -> (r: Vec<EventValue>)
    requires
        i < old(subs)@.len(),
    ensures
        events_view(r@) == subs_view(old(subs)@)[i as int].queue,
        final(subs)@.len() == old(subs)@.len(),
        subs_view(final(subs)@) == subs_view(old(subs)@).update(
            i as int,
            SubModel {
                name: subs_view(old(subs)@)[i as int].name,
                id: subs_view(old(subs)@)[i as int].id,
                queue: Seq::empty(),
            },
        ),
{
    let taken = subs.remove(i);
    let q = taken.queue;
    let fresh = Subscription { name: taken.name, id: taken.id, queue: Vec::new() };
    let ghost fresh_snap = fresh;
    subs.insert(i, fresh);
    proof {
        assert(events_view(q@) =~~= subs_view(old(subs)@)[i as int].queue);
        assert(events_view(Seq::<EventValue>::empty()) =~= Seq::<EventModel>::empty());
        assert(subs@ =~= old(subs)@.remove(i as int).insert(i as int, fresh_snap));
        assert(forall|p: int| 0 <= p < subs@.len() && p != i ==> subs@[p] == old(subs)@[p]);
        assert(subs@[i as int].name == old(subs)@[i as int].name);
        assert(subs@[i as int].id == old(subs)@[i as int].id);
        assert(subs@[i as int].queue@ =~= Seq::<EventValue>::empty());
        let target = subs_view(old(subs)@).update(
            i as int,
            SubModel {
                name: subs_view(old(subs)@)[i as int].name,
                id: subs_view(old(subs)@)[i as int].id,
                queue: Seq::empty(),
            },
        );
        assert(subs_view(subs@).len() == target.len());
        assert forall|p: int| 0 <= p < subs@.len()
            implies subs_view(subs@)[p] =~~= target[p] by {
            assert(subs_view(subs@)[p] == subs@[p]@);
            if p == i {
                assert(subs@[p]@.queue =~~= Seq::<EventModel>::empty());
            } else {
                assert(subs@[p] == old(subs)@[p]);
                assert(target[p] == subs_view(old(subs)@)[p]);
            }
        }
        assert(subs_view(subs@) =~~= target);
    }
    q
}

/// Appends one event to the queue of one subscription.
fn push_queue(subs: &mut Vec<Subscription>, i: usize, v: EventValue)
    requires
        i < old(subs)@.len(),
    ensures
        final(subs)@.len() == old(subs)@.len(),
        subs_view(final(subs)@) == subs_view(old(subs)@).update(
            i as int,
            SubModel {
                name: subs_view(old(subs)@)[i as int].name,
                id: subs_view(old(subs)@)[i as int].id,
                queue: subs_view(old(subs)@)[i as int].queue.push(v@),
            },
        ),
{
    let ghost v_snap = v@;
    let mut taken = subs.remove(i);
    taken.queue.push(v);
    let ghost new_queue = taken.queue@;
    subs.insert(i, taken);
    proof {
        let target = subs_view(old(subs)@).update(
            i as int,
            SubModel {
                name: subs_view(old(subs)@)[i as int].name,
                id: subs_view(old(subs)@)[i as int].id,
                queue: subs_view(old(subs)@)[i as int].queue.push(v_snap),
            },
        );
        assert(forall|p: int| 0 <= p < subs@.len() && p != i ==> subs@[p] == old(subs)@[p]);
        assert(subs@[i as int].queue@ =~= old(subs)@[i as int].queue@.push(v));
        assert(subs_view(subs@).len() == target.len());
        assert forall|p: int| 0 <= p < subs@.len()
            implies subs_view(subs@)[p] =~~= target[p] by {
            assert(subs_view(subs@)[p] == subs@[p]@);
            if p == i {
                assert(events_view(subs@[p].queue@)
                    =~~= events_view(old(subs)@[p].queue@).push(v_snap));
            } else {
                assert(target[p] == subs_view(old(subs)@)[p]);
            }
        }
        assert(subs_view(subs@) =~~= target);
    }
}

/// Subscribing and then unsubscribing leaves the bus's subscriptions exactly
/// as they were; the handle counter alone advances.
pub proof fn lemma_subscribe_unsubscribe(b: BusModel, name: EventName)
    requires
        bus_wf(b),
    ensures
        subs_without(
            b.subs.push(SubModel { name: name, id: b.next_id, queue: Seq::empty() }),
            name,
            b.next_id,
        ) == b.subs,
{
    lemma_subs_without_fresh(b.subs, name, b.next_id);
}

/// Unsubscribing a handle that no subscription carries is a no-op.
pub proof fn lemma_unsubscribe_unknown(subs: Seq<SubModel>, name: EventName, id: int)
    requires
        forall|i: int| 0 <= i < subs.len() ==> (#[trigger] subs[i]).id != id,
    ensures
        subs_without(subs, name, id) == subs,
    decreases subs.len(),
{
    if subs.len() > 0 {
        assert(forall|i: int| 0 <= i < subs.skip(1).len()
            ==> subs.skip(1)[i] == subs[i + 1]);
        lemma_unsubscribe_unknown(subs.skip(1), name, id);
        assert(subs_without(subs, name, id) =~= subs);
    } else {
        assert(subs_without(subs, name, id) =~= subs);
    }
}

proof fn lemma_subs_without_fresh(subs: Seq<SubModel>, name: EventName, id: int)
    requires
        forall|i: int| 0 <= i < subs.len() ==> (#[trigger] subs[i]).id < id,
    ensures
        subs_without(
            subs.push(SubModel { name: name, id: id, queue: Seq::empty() }),
            name,
            id,
        ) == subs,
    decreases subs.len(),
{
    let added = SubModel { name: name, id: id, queue: Seq::empty() };
    let whole = subs.push(added);
    if subs.len() == 0 {
        assert(whole[0] == added);
        assert(whole.skip(1) =~= Seq::<SubModel>::empty());
        assert(subs_without(Seq::<SubModel>::empty(), name, id) =~= Seq::<SubModel>::empty());
        assert(subs_without(whole, name, id) =~~= subs);
    } else {
        assert(whole[0] == subs[0]);
        assert(subs[0].id != id);
        assert(whole.skip(1) =~= subs.skip(1).push(added));
        assert(forall|i: int| 0 <= i < subs.skip(1).len()
            ==> subs.skip(1)[i] == subs[i + 1]);
        lemma_subs_without_fresh(subs.skip(1), name, id);
        let rest = subs_without(subs.skip(1).push(added), name, id);
        assert(subs_without(whole, name, id)
            =~~= seq![subs[0]] + rest);
        assert(rest == subs.skip(1));
        assert forall|p: int| 0 <= p < subs.len()
            implies (seq![subs[0]] + rest)[p] =~~= subs[p] by {
            if p > 0 {
                assert((seq![subs[0]] + rest)[p] == rest[p - 1]);
                assert(subs.skip(1)[p - 1] == subs[p]);
            }
        }
        assert((seq![subs[0]] + rest).len() == subs.len());
        assert(subs_without(whole, name, id) =~~= subs);
    }
}

} // verus!
