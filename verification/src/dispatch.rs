//! The dispatcher: activity registry, topic registry, and the reentrancy-safe
//! publish queue that drains messages in FIFO, breadth-complete order.

use crate::activity::ActivityId;
use crate::activity::ActivitySlot;
use crate::activity::DomainId;
use crate::activity::LifecycleStatus;
use crate::assoc::alist_get;
use crate::assoc::alist_find_last;
use crate::assoc::lemma_alist_get_last_occurrence;
use crate::assoc::lemma_alist_get_push;
use crate::assoc::lemma_alist_get_remove_other;
use crate::assoc::lemma_alist_get_update_other;
use crate::domain::DomainState;
use crate::filter::passes;
use crate::filter::SubscriptionFilter;
use vstd::prelude::*;

verus! {

/// A subscriber callback. The dispatch loop hands it the subscribed
/// activity's private state and the delivered message; a domained
/// subscription also receives the shared store of the activity's domain.
/// The returned vector holds the messages the handler publishes in turn,
/// each as a tag paired with its payload: they are appended to the pending
/// queue and dispatched after the current message's subscribers have all run.
pub trait Handler<A, M, D> {
    /// Called for a delivery through a plain subscription.
    fn on_message(&self, activity: &mut A, message: &M) -> Vec<(u64, M)>;

    /// Called for a delivery through a domained subscription.
    fn on_domained_message(
        &self,
        activity: &mut A,
        domain: &mut DomainState<D>,
        message: &M,
    ) -> Vec<(u64, M)>;
}

/// One registered subscription: the handle of the owning activity, the
/// delivery filter, the subscription flavor, and the callback itself.
pub(crate) struct Subscription<H> {
    pub(crate) activity: usize,
    pub(crate) filter: SubscriptionFilter,
    pub(crate) domained: bool,
    pub(crate) handler: H,
}

/// What one subscription looks like to contracts: the slot index of the
/// owning activity, the delivery filter, the subscription flavor, and the
/// very callback value that was registered.
pub struct SubInfo<H> {
    /// Slot index of the subscribed activity.
    pub activity: usize,
    /// Filter deciding delivery from the activity's lifecycle status.
    pub filter: SubscriptionFilter,
    /// Whether the callback also receives the activity's domain store.
    pub domained: bool,
    /// The registered callback.
    pub handler: H,
}

impl<H> Subscription<H> {
    pub(crate) open spec fn info(self) -> SubInfo<H> {
        SubInfo {
            activity: self.activity,
            filter: self.filter,
            domained: self.domained,
            handler: self.handler,
        }
    }
}

/// Record of one callback invocation: which subscription ran, what was
/// handed to the callback, what it left behind, and what it published.
pub struct Delivery<A, M, D, H> {
    /// Slot index of the activity whose callback ran.
    pub activity: usize,
    /// Tag of the delivered message.
    pub tag: u64,
    /// The delivered message.
    pub message: M,
    /// The callback that ran: the one the subscription was registered with.
    pub handler: H,
    /// Whether the callback also received the activity's domain store.
    pub domained: bool,
    /// Key of the activity's domain.
    pub domain: u64,
    /// The activity's private state handed to the callback.
    pub data_in: A,
    /// The activity's private state when the callback returned.
    pub data_out: A,
    /// Contents of the domain's store handed to the callback.
    pub store_in: Map<u64, D>,
    /// Contents of the domain's store when the callback returned. A plain
    /// (non-domained) delivery leaves the store untouched.
    pub store_out: Map<u64, D>,
    /// The messages the callback returned for publishing, in order.
    pub published: Seq<(u64, M)>,
}

/// Whether a delivery through `sub` happens: the subscribed slot exists and
/// its current lifecycle status passes the subscription's filter.
pub open spec fn delivery_passes<H>(sub: SubInfo<H>, statuses: Seq<LifecycleStatus>) -> bool {
    sub.activity < statuses.len() && passes(sub.filter, statuses[sub.activity as int])
}

/// The subscriptions that dispatching one message reaches among the first
/// `n` of its topic: those whose filter passes, in registration order.
pub open spec fn delivered_upto<H>(
    subs: Seq<SubInfo<H>>,
    statuses: Seq<LifecycleStatus>,
    n: int,
) -> Seq<SubInfo<H>>
    decreases n,
{
    if n <= 0 {
        Seq::empty()
    } else {
        delivered_upto(subs, statuses, n - 1) + if delivery_passes(subs[n - 1], statuses) {
            seq![subs[n - 1]]
        } else {
            Seq::empty()
        }
    }
}

/// The subscriptions that dispatching one message reaches: those of its
/// topic whose filter passes, in registration order.
pub open spec fn delivered_for<H>(
    subs: Seq<SubInfo<H>>,
    statuses: Seq<LifecycleStatus>,
) -> Seq<SubInfo<H>> {
    delivered_upto(subs, statuses, subs.len() as int)
}

/// One dispatch round performed the deliveries it owes: one per reached
/// subscription, in registration order, each invoking that subscription's
/// own callback with the message, on the right activity and its domain.
pub open spec fn round_matches<A, M, D, H>(
    round: Seq<Delivery<A, M, D, H>>,
    del: Seq<SubInfo<H>>,
    tag: u64,
    message: M,
    domains: Seq<u64>,
) -> bool {
    &&& round.len() == del.len()
    &&& forall|i: int|
        0 <= i < round.len() ==> {
            &&& (#[trigger] round[i]).activity == del[i].activity
            &&& round[i].handler == del[i].handler
            &&& round[i].domained == del[i].domained
            &&& round[i].tag == tag
            &&& round[i].message == message
            &&& del[i].activity < domains.len()
            &&& round[i].domain == domains[del[i].activity as int]
        }
}

/// The private activity states after the recorded deliveries ran, starting
/// from the states `datas`: each delivery leaves behind what its callback
/// left in its activity's slot.
pub open spec fn apply_data<A, M, D, H>(datas: Seq<A>, ds: Seq<Delivery<A, M, D, H>>) -> Seq<A>
    decreases ds.len(),
{
    if ds.len() == 0 {
        datas
    } else {
        apply_data(datas, ds.drop_last()).update(ds.last().activity as int, ds.last().data_out)
    }
}

/// The domain stores after the recorded deliveries ran, starting from the
/// stores `stores` (one mapping per domain key): each delivery leaves behind
/// what its callback left in its domain's store.
pub open spec fn apply_stores<A, M, D, H>(
    stores: Map<u64, Map<u64, D>>,
    ds: Seq<Delivery<A, M, D, H>>,
) -> Map<u64, Map<u64, D>>
    decreases ds.len(),
{
    if ds.len() == 0 {
        stores
    } else {
        apply_stores(stores, ds.drop_last()).insert(ds.last().domain, ds.last().store_out)
    }
}

/// Each recorded delivery handed its callback the then-current state: the
/// private data its activity held and the store its domain held after the
/// deliveries before it, and a plain delivery left the store untouched.
pub open spec fn deliveries_chained<A, M, D, H>(
    datas: Seq<A>,
    stores: Map<u64, Map<u64, D>>,
    ds: Seq<Delivery<A, M, D, H>>,
) -> bool
    decreases ds.len(),
{
    if ds.len() == 0 {
        true
    } else {
        let prior = ds.drop_last();
        let d = ds.last();
        &&& deliveries_chained(datas, stores, prior)
        &&& d.activity < apply_data(datas, prior).len()
        &&& d.data_in == apply_data(datas, prior)[d.activity as int]
        &&& d.store_in == apply_stores(stores, prior)[d.domain]
        &&& (!d.domained ==> d.store_out == d.store_in)
    }
}

/// The messages the recorded deliveries published, in delivery order.
pub open spec fn published_of<A, M, D, H>(ds: Seq<Delivery<A, M, D, H>>) -> Seq<(u64, M)>
    decreases ds.len(),
{
    if ds.len() == 0 {
        Seq::empty()
    } else {
        published_of(ds.drop_last()) + ds.last().published
    }
}

/// The deliveries of a sequence of dispatch rounds, in order.
pub open spec fn flatten_rounds<A, M, D, H>(
    rounds: Seq<Seq<Delivery<A, M, D, H>>>,
) -> Seq<Delivery<A, M, D, H>>
    decreases rounds.len(),
{
    if rounds.len() == 0 {
        Seq::empty()
    } else {
        flatten_rounds(rounds.drop_last()) + rounds.last()
    }
}

/// Replaying two delivery sequences one after the other is replaying their
/// concatenation: the states chain through, and the published messages
/// concatenate.
pub proof fn lemma_deliveries_append<A, M, D, H>(
    datas: Seq<A>,
    stores: Map<u64, Map<u64, D>>,
    ds1: Seq<Delivery<A, M, D, H>>,
    ds2: Seq<Delivery<A, M, D, H>>,
)
    ensures
        apply_data(datas, ds1 + ds2) == apply_data(apply_data(datas, ds1), ds2),
        apply_stores(stores, ds1 + ds2) == apply_stores(apply_stores(stores, ds1), ds2),
        published_of(ds1 + ds2) == published_of(ds1) + published_of(ds2),
        deliveries_chained(datas, stores, ds1 + ds2) <==> (deliveries_chained(datas, stores, ds1)
            && deliveries_chained(apply_data(datas, ds1), apply_stores(stores, ds1), ds2)),
    decreases ds2.len(),
{
    if ds2.len() == 0 {
        assert(ds1 + ds2 =~= ds1);
        assert(published_of(ds1) + published_of(ds2) =~= published_of(ds1));
    } else {
        lemma_deliveries_append(datas, stores, ds1, ds2.drop_last());
        assert((ds1 + ds2).drop_last() =~= ds1 + ds2.drop_last());
        assert((ds1 + ds2).last() == ds2.last());
        assert(published_of(ds1 + ds2) =~= published_of(ds1) + published_of(ds2));
    }
}

/// The deliveries of a nonempty round sequence begin with the whole first
/// round: nothing of a later round is interleaved within it.
pub proof fn lemma_flatten_rounds_first<A, M, D, H>(rounds: Seq<Seq<Delivery<A, M, D, H>>>)
    requires
        rounds.len() >= 1,
    ensures
        flatten_rounds(rounds) == rounds[0] + flatten_rounds(rounds.drop_first()),
    decreases rounds.len(),
{
    if rounds.len() == 1 {
        assert(rounds.drop_last() =~= Seq::<Seq<Delivery<A, M, D, H>>>::empty());
        assert(rounds.drop_first() =~= Seq::<Seq<Delivery<A, M, D, H>>>::empty());
        assert(rounds[0] + flatten_rounds(rounds.drop_first()) =~= rounds[0]);
        assert(flatten_rounds(rounds) =~= rounds[0]);
    } else {
        lemma_flatten_rounds_first(rounds.drop_last());
        assert(rounds.drop_last()[0] == rounds[0]);
        assert(rounds.drop_first().drop_last() =~= rounds.drop_last().drop_first());
        assert(rounds.drop_first().last() == rounds.last());
        assert(flatten_rounds(rounds) =~= rounds[0] + flatten_rounds(rounds.drop_first()));
    }
}

/// Two activity slot sequences of the same shape: equally many slots, each
/// with the same status and domain (the private data may differ).
pub(crate) open spec fn same_slots<A>(a: Seq<ActivitySlot<A>>, b: Seq<ActivitySlot<A>>) -> bool {
    &&& a.len() == b.len()
    &&& forall|i: int|
        0 <= i < a.len() ==> (#[trigger] a[i]).status == b[i].status && a[i].domain == b[i].domain
}

/// Most messages one `publish` call dispatches before abandoning the rest of
/// its queue: the bound that keeps a chain of handlers republishing to each
/// other from looping forever.
pub const DISPATCH_FUEL: usize = 1048576;

/// The dispatcher: one process-local instance owns the activity registry,
/// the per-tag subscription topics, and the domain stores, and drains every
/// published message to the matching subscribers.
///
/// `A` is the type of activity private state, `M` the message payload type,
/// `D` the type of values kept in domain stores, and `H` the subscriber
/// callback type.
pub struct Nut<A, M, D, H> {
    pub(crate) activities: Vec<ActivitySlot<A>>,
    pub(crate) topics: Vec<(u64, Vec<Subscription<H>>)>,
    pub(crate) domains: Vec<(u64, DomainState<D>)>,
    pub(crate) log: Ghost<Seq<Delivery<A, M, D, H>>>,
}

impl<A, M, D, H> Nut<A, M, D, H> {
    /// Number of registered activities.
    pub closed spec fn num_activities(self) -> nat {
        self.activities@.len()
    }

    /// Lifecycle status of each registered activity, by slot index.
    pub closed spec fn statuses(self) -> Seq<LifecycleStatus> {
        self.activities@.map_values(|s: ActivitySlot<A>| s.status)
    }

    /// Domain key of each registered activity, by slot index.
    pub closed spec fn activity_domains(self) -> Seq<u64> {
        self.activities@.map_values(|s: ActivitySlot<A>| s.domain)
    }

    /// Private data of the activity in slot `i`.
    pub closed spec fn data_of(self, i: int) -> A {
        self.activities@[i].data
    }

    /// Private data of each registered activity, by slot index.
    pub closed spec fn datas(self) -> Seq<A> {
        self.activities@.map_values(|s: ActivitySlot<A>| s.data)
    }

    /// The store of every domain, by key: the one total view that the
    /// dispatch contracts relate to the recorded deliveries.
    pub closed spec fn domain_maps(self) -> Map<u64, Map<u64, D>> {
        Map::new(|k: u64| true, |k: u64| self.domain_map(k))
    }

    /// The subscriptions of the topic of `tag`, in registration order.
    pub closed spec fn topic_subs(self, tag: u64) -> Seq<SubInfo<H>> {
        match alist_get(self.topics@, tag) {
            Some(subs) => subs@.map_values(|s: Subscription<H>| s.info()),
            None => Seq::empty(),
        }
    }

    /// The shared state of the domain with `key`: empty until first written.
    pub closed spec fn domain_map(self, key: u64) -> Map<u64, D> {
        match alist_get(self.domains@, key) {
            Some(ds) => ds@,
            None => Map::empty(),
        }
    }

    /// Every callback invocation this dispatcher has performed, in order.
    pub closed spec fn history(self) -> Seq<Delivery<A, M, D, H>> {
        self.log@
    }

    /// The shapes the per-index views share: `statuses`, `activity_domains`
    /// and `datas` each have one entry per registered activity, indexed
    /// views agree with the whole-sequence views, and `domain_maps` covers
    /// every key.
    pub proof fn lemma_state_projections(self)
        ensures
            self.statuses().len() == self.num_activities(),
            self.activity_domains().len() == self.num_activities(),
            self.datas().len() == self.num_activities(),
            forall|i: int|
                0 <= i < self.num_activities() ==> #[trigger] self.datas()[i] == self.data_of(i),
            forall|k: u64| #[trigger] self.domain_maps().contains_key(k),
            forall|k: u64| #[trigger] self.domain_maps()[k] == self.domain_map(k),
    {
    }

    /// Every subscription points at a registered activity slot.
    pub closed spec fn wf(self) -> bool {
        forall|ti: int, si: int|
            0 <= ti < self.topics@.len() && 0 <= si < self.topics@[ti].1@.len() ==> (
            #[trigger] self.topics@[ti].1@[si]).activity < self.activities@.len()
    }

    /// `other` has the same registry as `self`: the same activities with the
    /// same statuses and domain memberships, and the same topics. Dispatching
    /// changes private activity data and domain contents, never the registry.
    pub closed spec fn same_registry(self, other: Self) -> bool {
        &&& self.num_activities() == other.num_activities()
        &&& self.statuses() == other.statuses()
        &&& self.activity_domains() == other.activity_domains()
        &&& forall|tag: u64| #[trigger] self.topic_subs(tag) == other.topic_subs(tag)
    }

    /// A dispatcher with no activities, no subscriptions, no domain data and
    /// an empty dispatch history.
    pub fn new() -> (r: Self)
        ensures
            r.wf(),
            r.num_activities() == 0,
            r.statuses() == Seq::<LifecycleStatus>::empty(),
            r.activity_domains() == Seq::<u64>::empty(),
            r.datas() == Seq::<A>::empty(),
            r.history() == Seq::<Delivery<A, M, D, H>>::empty(),
            forall|tag: u64| #[trigger] r.topic_subs(tag) == Seq::<SubInfo<H>>::empty(),
            forall|key: u64| #[trigger] r.domain_map(key) == Map::<u64, D>::empty(),
    {
        let r = Nut {
            activities: Vec::new(),
            topics: Vec::new(),
            domains: Vec::new(),
            log: Ghost(Seq::empty()),
        };
        proof {
            assert(r.statuses() =~= Seq::<LifecycleStatus>::empty());
            assert(r.activity_domains() =~= Seq::<u64>::empty());
            assert(r.datas() =~= Seq::<A>::empty());
        }
        r
    }

    /// Inserts a new activity slot and returns its handle. Never fails; the
    /// handle stays valid for the life of the dispatcher.
    pub fn register(&mut self, data: A, domain: DomainId, status: LifecycleStatus) -> (r:
        ActivityId)
        requires
            old(self).wf(),
        ensures
            final(self).wf(),
            r.index == old(self).num_activities(),
            final(self).num_activities() == old(self).num_activities() + 1,
            final(self).statuses() == old(self).statuses().push(status),
            final(self).activity_domains() == old(self).activity_domains().push(domain.key),
            final(self).data_of(r.index as int) == data,
            forall|i: int| 0 <= i < old(self).num_activities() ==> final(self).data_of(i) == old(self).data_of(i),
            forall|tag: u64| #[trigger] final(self).topic_subs(tag) == old(self).topic_subs(tag),
            forall|key: u64| #[trigger] final(self).domain_map(key) == old(self).domain_map(key),
            final(self).history() == old(self).history(),
    {
        let r = ActivityId { index: self.activities.len() };
        self.activities.push(ActivitySlot { data: data, status: status, domain: domain.key });
        proof {
            assert(self.statuses() =~= old(self).statuses().push(status));
            assert(self.activity_domains() =~= old(self).activity_domains().push(domain.key));
        }
        r
    }

    /// Toggles the lifecycle status of the activity `id`. The change affects
    /// which filtered deliveries reach the activity on subsequent publishes;
    /// it is not retroactive.
    pub fn set_status(&mut self, id: ActivityId, status: LifecycleStatus)
        requires
            old(self).wf(),
            id.index < old(self).num_activities(),
        ensures
            final(self).wf(),
            final(self).num_activities() == old(self).num_activities(),
            final(self).statuses() == old(self).statuses().update(id.index as int, status),
            final(self).activity_domains() == old(self).activity_domains(),
            forall|i: int| 0 <= i < old(self).num_activities() ==> final(self).data_of(i) == old(self).data_of(i),
            forall|tag: u64| #[trigger] final(self).topic_subs(tag) == old(self).topic_subs(tag),
            forall|key: u64| #[trigger] final(self).domain_map(key) == old(self).domain_map(key),
            final(self).history() == old(self).history(),
    {
        let mut slot = self.activities.remove(id.index);
        slot.status = status;
        self.activities.insert(id.index, slot);
        proof {
            assert(self.activities@ =~= old(self).activities@.update(
                id.index as int,
                ActivitySlot {
                    data: old(self).activities@[id.index as int].data,
                    status: status,
                    domain: old(self).activities@[id.index as int].domain,
                },
            ));
            assert(self.statuses() =~= old(self).statuses().update(id.index as int, status));
            assert(self.activity_domains() =~= old(self).activity_domains());
        }
    }

    /// The lifecycle status of the activity `id` as the filter check sees it.
    pub fn is_active(&self, id: ActivityId) -> (r: bool)
        requires
            id.index < self.num_activities(),
        ensures
            r == (self.statuses()[id.index as int] is Active),
    {
        self.activities[id.index].status.is_active()
    }

    /// Returns true when a delivery to the activity `id` under `filter`
    /// should go through (false when it is filtered out).
    pub fn filter(&self, id: ActivityId, filter: &SubscriptionFilter) -> (r: bool)
        requires
            id.index < self.num_activities(),
        ensures
            r == passes(*filter, self.statuses()[id.index as int]),
    {
        !filter.active_only || self.activities[id.index].status.is_active()
    }

    /// Exclusive mutable access to the private data of the activity `id`:
    /// the sole sanctioned mutation path for activity state from outside a
    /// subscriber callback.
    pub fn with_mut(&mut self, id: ActivityId) -> (r: &mut A)
        requires
            old(self).wf(),
            id.index < old(self).num_activities(),
        ensures
            *r == old(self).data_of(id.index as int),
            final(self).wf(),
            final(self).num_activities() == old(self).num_activities(),
            final(self).statuses() == old(self).statuses(),
            final(self).activity_domains() == old(self).activity_domains(),
            final(self).data_of(id.index as int) == *final(r),
            forall|i: int|
                0 <= i < old(self).num_activities() && i != id.index ==> final(self).data_of(i)
                    == old(self).data_of(i),
            forall|tag: u64| #[trigger] final(self).topic_subs(tag) == old(self).topic_subs(tag),
            forall|key: u64| #[trigger] final(self).domain_map(key) == old(self).domain_map(key),
            final(self).history() == old(self).history(),
    {
        let ghost s0 = self.activities@;
        let r = &mut self.activities[id.index].data;
        proof {
            let sf = after_borrow(*self).activities@;
            assert(sf =~= s0.update(
                id.index as int,
                ActivitySlot {
                    data: *final(r),
                    status: s0[id.index as int].status,
                    domain: s0[id.index as int].domain,
                },
            ));
            assert(after_borrow(*self).statuses() =~= old(self).statuses());
            assert(after_borrow(*self).activity_domains() =~= old(self).activity_domains());
        }
        r
    }
}

impl<A, M, D, H> Nut<A, M, D, H> {
    /// Appends one subscription entry to the topic of `tag`, creating the
    /// topic when absent. No deduplication is attempted: re-subscribing
    /// produces an additional independent delivery, after the earlier ones.
    fn subscribe_any(&mut self, id: ActivityId, tag: u64, filter: SubscriptionFilter, domained:
        bool, handler: H)
        requires
            old(self).wf(),
            id.index < old(self).num_activities(),
        ensures
            final(self).wf(),
            final(self).topic_subs(tag) == old(self).topic_subs(tag).push(
                SubInfo { activity: id.index, filter: filter, domained: domained, handler: handler },
            ),
            forall|t2: u64|
                t2 != tag ==> #[trigger] final(self).topic_subs(t2) == old(self).topic_subs(t2),
            final(self).num_activities() == old(self).num_activities(),
            final(self).statuses() == old(self).statuses(),
            final(self).activity_domains() == old(self).activity_domains(),
            forall|i: int| 0 <= i < old(self).num_activities() ==> final(self).data_of(i) == old(self).data_of(i),
            forall|key: u64| #[trigger] final(self).domain_map(key) == old(self).domain_map(key),
            final(self).history() == old(self).history(),
    {
        let sub = Subscription { activity: id.index, filter: filter, domained: domained, handler: handler };
        let ghost t0 = self.topics@;
        match alist_find_last(&self.topics, tag) {
            Some(ti) => {
                let mut entry = self.topics.remove(ti);
                let ghost subs0 = entry.1@;
                entry.1.push(sub);
                self.topics.insert(ti, entry);
                proof {
                    let t1 = self.topics@;
                    assert(t1 =~= t0.update(ti as int, t1[ti as int]));
                    assert(t1[ti as int].0 == tag);
                    assert(t1[ti as int].1@ == subs0.push(sub));
                    lemma_alist_get_last_occurrence(t1, tag, ti as int);
                    assert(subs0.push(sub).map_values(|s: Subscription<H>| s.info())
                        =~= subs0.map_values(|s: Subscription<H>| s.info()).push(sub.info()));
                    assert forall|t2: u64| t2 != tag implies #[trigger] alist_get(t1, t2)
                        == alist_get(t0, t2) by {
                        lemma_alist_get_update_other(t0, ti as int, t1[ti as int], t2);
                    }
                }
            },
            None => {
                let mut subs: Vec<Subscription<H>> = Vec::new();
                subs.push(sub);
                self.topics.push((tag, subs));
                proof {
                    let t1 = self.topics@;
                    assert(t1.last().0 == tag);
                    assert forall|t2: u64| #[trigger] alist_get(t1, t2) == if t2 == tag {
                        Some(t1.last().1)
                    } else {
                        alist_get(t0, t2)
                    } by {
                        lemma_alist_get_push(t0, tag, t1.last().1, t2);
                    }
                    assert(t1.last().1@.map_values(|s: Subscription<H>| s.info()) =~= Seq::<
                        SubInfo<H>,
                    >::empty().push(sub.info()));
                }
            },
        }
    }

    /// Registers `handler` to be called with the activity's private state for
    /// every message published under `tag` that the filter lets through.
    pub fn subscribe(&mut self, id: ActivityId, tag: u64, filter: SubscriptionFilter, handler: H)
        requires
            old(self).wf(),
            id.index < old(self).num_activities(),
        ensures
            final(self).wf(),
            final(self).topic_subs(tag) == old(self).topic_subs(tag).push(
                SubInfo { activity: id.index, filter: filter, domained: false, handler: handler },
            ),
            forall|t2: u64|
                t2 != tag ==> #[trigger] final(self).topic_subs(t2) == old(self).topic_subs(t2),
            final(self).num_activities() == old(self).num_activities(),
            final(self).statuses() == old(self).statuses(),
            final(self).activity_domains() == old(self).activity_domains(),
            forall|i: int| 0 <= i < old(self).num_activities() ==> final(self).data_of(i) == old(self).data_of(i),
            forall|key: u64| #[trigger] final(self).domain_map(key) == old(self).domain_map(key),
            final(self).history() == old(self).history(),
    {
        self.subscribe_any(id, tag, filter, false, handler)
    }

    /// Registers `handler` to be called with the activity's private state and
    /// the shared store of the activity's domain for every message published
    /// under `tag` that the filter lets through.
    pub fn subscribe_domained(&mut self, id: ActivityId, tag: u64, filter: SubscriptionFilter, handler: H)
        requires
            old(self).wf(),
            id.index < old(self).num_activities(),
        ensures
            final(self).wf(),
            final(self).topic_subs(tag) == old(self).topic_subs(tag).push(
                SubInfo { activity: id.index, filter: filter, domained: true, handler: handler },
            ),
            forall|t2: u64|
                t2 != tag ==> #[trigger] final(self).topic_subs(t2) == old(self).topic_subs(t2),
            final(self).num_activities() == old(self).num_activities(),
            final(self).statuses() == old(self).statuses(),
            final(self).activity_domains() == old(self).activity_domains(),
            forall|i: int| 0 <= i < old(self).num_activities() ==> final(self).data_of(i) == old(self).data_of(i),
            forall|key: u64| #[trigger] final(self).domain_map(key) == old(self).domain_map(key),
            final(self).history() == old(self).history(),
    {
        self.subscribe_any(id, tag, filter, true, handler)
    }

    /// Two states with slot sequences of the same shape and the same topics
    /// have the same registry.
    proof fn lemma_same_registry_from_parts(self, other: Self)
        requires
            same_slots(self.activities@, other.activities@),
            self.topics@ == other.topics@,
        ensures
            self.same_registry(other),
    {
        assert(self.statuses() =~= other.statuses());
        assert(self.activity_domains() =~= other.activity_domains());
    }

    /// Having the same registry is transitive.
    proof fn lemma_same_registry_trans(self, mid: Self, other: Self)
        requires
            self.same_registry(mid),
            mid.same_registry(other),
        ensures
            self.same_registry(other),
    {
        assert forall|tag: u64| #[trigger] self.topic_subs(tag) == other.topic_subs(tag) by {
            assert(self.topic_subs(tag) == mid.topic_subs(tag));
            assert(mid.topic_subs(tag) == other.topic_subs(tag));
        }
    }

    /// Stores `data` under `tag` in the shared store of the domain with
    /// `domain`, creating the store on first write and overwriting any prior
    /// value of the same tag.
    pub fn write_domain(&mut self, domain: DomainId, tag: u64, data: D)
        requires
            old(self).wf(),
        ensures
            final(self).wf(),
            final(self).domain_map(domain.key) == old(self).domain_map(domain.key).insert(
                tag,
                data,
            ),
            forall|k2: u64|
                k2 != domain.key ==> #[trigger] final(self).domain_map(k2) == old(self).domain_map(
                    k2,
                ),
            final(self).num_activities() == old(self).num_activities(),
            final(self).statuses() == old(self).statuses(),
            final(self).activity_domains() == old(self).activity_domains(),
            forall|i: int| 0 <= i < old(self).num_activities() ==> final(self).data_of(i) == old(self).data_of(i),
            forall|tag2: u64| #[trigger] final(self).topic_subs(tag2) == old(self).topic_subs(
                tag2,
            ),
            final(self).history() == old(self).history(),
    {
        let ghost d0 = self.domains@;
        match alist_find_last(&self.domains, domain.key) {
            Some(di) => {
                let mut entry = self.domains.remove(di);
                entry.1.store(tag, data);
                self.domains.insert(di, entry);
                proof {
                    let d1 = self.domains@;
                    assert(d1 =~= d0.update(di as int, d1[di as int]));
                    assert(d1[di as int].0 == domain.key);
                    lemma_alist_get_last_occurrence(d1, domain.key, di as int);
                    assert forall|k2: u64| k2 != domain.key implies #[trigger] alist_get(d1, k2)
                        == alist_get(d0, k2) by {
                        lemma_alist_get_update_other(d0, di as int, d1[di as int], k2);
                    }
                }
            },
            None => {
                let mut ds: DomainState<D> = DomainState::new();
                ds.store(tag, data);
                self.domains.push((domain.key, ds));
                proof {
                    let d1 = self.domains@;
                    assert forall|k2: u64| #[trigger] alist_get(d1, k2) == if k2 == domain.key {
                        Some(d1.last().1)
                    } else {
                        alist_get(d0, k2)
                    } by {
                        lemma_alist_get_push(d0, domain.key, d1.last().1, k2);
                    }
                    assert(self.domain_map(domain.key) =~= old(self).domain_map(
                        domain.key,
                    ).insert(tag, data));
                }
            },
        }
    }
}

impl<A, M, D, H: Handler<A, M, D>> Nut<A, M, D, H> {
    /// Dispatches one message to its topic's subscribers, in registration
    /// order, skipping the subscriptions whose filter rejects the owning
    /// activity's current status. A message whose topic does not exist is
    /// dropped successfully: zero subscribers is not an error. Returns the
    /// messages the invoked callbacks published in turn, in delivery order,
    /// together with the round's delivery records.
    fn dispatch_one(&mut self, tag: u64, message: M) -> (r: (
        Vec<(u64, M)>,
        Ghost<Seq<Delivery<A, M, D, H>>>,
    ))
        requires
            old(self).wf(),
        ensures
            final(self).wf(),
            old(self).same_registry(*final(self)),
            round_matches(
                r.1@,
                delivered_for(old(self).topic_subs(tag), old(self).statuses()),
                tag,
                message,
                old(self).activity_domains(),
            ),
            final(self).history() == old(self).history() + r.1@,
            deliveries_chained(old(self).datas(), old(self).domain_maps(), r.1@),
            final(self).datas() == apply_data(old(self).datas(), r.1@),
            final(self).domain_maps() == apply_stores(old(self).domain_maps(), r.1@),
            r.0@ == published_of(r.1@),
    {
        let ghost nut0 = *self;
        let ghost g_subs = nut0.topic_subs(tag);
        let ghost g_sts = nut0.statuses();
        let ghost g_doms = nut0.activity_domains();
        let ghost g_datas = nut0.datas();
        let ghost g_stores = nut0.domain_maps();
        let mut out: Vec<(u64, M)> = Vec::new();
        let ghost mut round: Seq<Delivery<A, M, D, H>> = Seq::empty();
        match alist_find_last(&self.topics, tag) {
            None => {
                proof {
                    assert(g_subs =~= Seq::<SubInfo<H>>::empty());
                    assert(self.history() =~= nut0.history() + round);
                    nut0.lemma_same_registry_from_parts(*self);
                }
                (out, Ghost(round))
            },
            Some(ti) => {
                let n = self.topics[ti].1.len();
                let mut si: usize = 0;
                proof {
                    assert(alist_get(nut0.topics@, tag) == Some(nut0.topics@[ti as int].1));
                    assert(g_subs.len() == n);
                    assert(self.log@ =~= nut0.log@ + round);
                }
                while si < n
                    invariant
                        self.wf(),
                        same_slots(nut0.activities@, self.activities@),
                        self.topics@ == nut0.topics@,
                        ti < self.topics@.len(),
                        self.topics@[ti as int].0 == tag,
                        n == self.topics@[ti as int].1@.len(),
                        si <= n,
                        g_subs == self.topics@[ti as int].1@.map_values(
                            |s: Subscription<H>| s.info(),
                        ),
                        g_sts == nut0.statuses(),
                        g_sts.len() == nut0.activities@.len(),
                        g_doms == nut0.activity_domains(),
                        g_doms.len() == nut0.activities@.len(),
                        g_datas == nut0.datas(),
                        g_stores == nut0.domain_maps(),
                        self.log@ == nut0.log@ + round,
                        round_matches(
                            round,
                            delivered_upto(g_subs, g_sts, si as int),
                            tag,
                            message,
                            g_doms,
                        ),
                        deliveries_chained(g_datas, g_stores, round),
                        self.datas() == apply_data(g_datas, round),
                        self.domain_maps() == apply_stores(g_stores, round),
                        out@ == published_of(round),
                    decreases n - si,
                {
                    let aid = self.topics[ti].1[si].activity;
                    let flt = self.topics[ti].1[si].filter;
                    let domained = self.topics[ti].1[si].domained;
                    proof {
                        assert(self.topics@[ti as int].1@[si as int].activity
                            < self.activities@.len());
                        assert(g_subs[si as int] == self.topics@[ti as int].1@[si as int].info());
                    }
                    let deliver = !flt.active_only || self.activities[aid].status.is_active();
                    if deliver {
                        let ghost slots_pre = self.activities@;
                        let ghost maps_pre = self.domain_maps();
                        let mut slot = self.activities.remove(aid);
                        let dkey = slot.domain;
                        let ghost data_in_g = slot.data;
                        let ghost store_in_g = self.domain_map(dkey);
                        let mut res: Vec<(u64, M)> = if domained {
                            // The domain's store is taken out of the table for
                            // the duration of the callback and returned at the
                            // tail; lookups go by key, so the position does
                            // not matter. A domain never written to before is
                            // created empty here.
                            let ghost doms_pre = self.domains@;
                            let mut ds: DomainState<D> = match alist_find_last(
                                &self.domains,
                                dkey,
                            ) {
                                Some(di) => {
                                    let pair = self.domains.remove(di);
                                    proof {
                                        assert forall|k2: u64| k2 != dkey implies #[trigger]
                                            alist_get(self.domains@, k2) == alist_get(
                                            doms_pre,
                                            k2,
                                        ) by {
                                            lemma_alist_get_remove_other(doms_pre, di as int, k2);
                                        }
                                    }
                                    pair.1
                                },
                                None => DomainState::new(),
                            };
                            let ghost mid_doms = self.domains@;
                            let r2 = self.topics[ti].1[si].handler.on_domained_message(
                                &mut slot.data,
                                &mut ds,
                                &message,
                            );
                            self.domains.push((dkey, ds));
                            proof {
                                assert forall|k2: u64| #[trigger] alist_get(self.domains@, k2)
                                    == if k2 == dkey {
                                    Some(self.domains@.last().1)
                                } else {
                                    alist_get(mid_doms, k2)
                                } by {
                                    lemma_alist_get_push(mid_doms, dkey, self.domains@.last().1, k2);
                                }
                            }
                            r2
                        } else {
                            self.topics[ti].1[si].handler.on_message(&mut slot.data, &message)
                        };
                        let ghost store_out_g = self.domain_map(dkey);
                        let ghost data_out_g = slot.data;
                        self.activities.insert(aid, slot);
                        let ghost d = Delivery {
                            activity: aid,
                            tag: tag,
                            message: message,
                            handler: self.topics@[ti as int].1@[si as int].handler,
                            domained: domained,
                            domain: dkey,
                            data_in: data_in_g,
                            data_out: data_out_g,
                            store_in: store_in_g,
                            store_out: store_out_g,
                            published: res@,
                        };
                        out.append(&mut res);
                        self.log = Ghost(self.log@ + seq![d]);
                        proof {
                            assert(round.push(d).drop_last() =~= round);
                            assert forall|j: int|
                                0 <= j < self.activities@.len() implies {
                                &&& (#[trigger] self.activities@[j]).status == slots_pre[j].status
                                &&& self.activities@[j].domain == slots_pre[j].domain
                                &&& self.activities@[j].data == if j == aid as int {
                                    data_out_g
                                } else {
                                    slots_pre[j].data
                                }
                            } by {
                                if j < aid as int {
                                } else if j == aid as int {
                                } else {
                                }
                            }
                            assert(same_slots(nut0.activities@, self.activities@));
                            // the reached subscription list grows by this one
                            assert(delivery_passes(g_subs[si as int], g_sts));
                            assert(delivered_upto(g_subs, g_sts, si as int + 1)
                                =~= delivered_upto(g_subs, g_sts, si as int).push(
                                g_subs[si as int],
                            ));
                            assert(dkey == g_doms[aid as int]);
                            assert(round_matches(
                                round.push(d),
                                delivered_upto(g_subs, g_sts, si as int + 1),
                                tag,
                                message,
                                g_doms,
                            ));
                            // the data view evolves by one update at the slot
                            assert(self.datas() =~= apply_data(g_datas, round).update(
                                aid as int,
                                data_out_g,
                            ));
                            assert(apply_data(g_datas, round.push(d)) == apply_data(
                                g_datas,
                                round,
                            ).update(aid as int, data_out_g));
                            // the store view evolves by one insert at the key
                            if domained {
                                assert(self.domain_maps() =~= maps_pre.insert(dkey, store_out_g));
                            } else {
                                assert(store_out_g == store_in_g);
                                assert(maps_pre.contains_key(dkey));
                                assert(self.domain_maps() =~= maps_pre.insert(dkey, store_out_g));
                            }
                            assert(apply_stores(g_stores, round.push(d)) == apply_stores(
                                g_stores,
                                round,
                            ).insert(dkey, store_out_g));
                            // the callback got the then-current data and store
                            assert(data_in_g == apply_data(g_datas, round)[aid as int]);
                            assert(store_in_g == apply_stores(g_stores, round)[dkey]);
                            assert(deliveries_chained(g_datas, g_stores, round.push(d)));
                            assert(published_of(round.push(d)) =~= published_of(round)
                                + d.published);
                            assert(self.log@ =~= nut0.log@ + round.push(d));
                            round = round.push(d);
                        }
                    } else {
                        proof {
                            assert(!delivery_passes(g_subs[si as int], g_sts));
                            assert(delivered_upto(g_subs, g_sts, si as int + 1)
                                =~= delivered_upto(g_subs, g_sts, si as int));
                        }
                    }
                    si = si + 1;
                }
                proof {
                    nut0.lemma_same_registry_from_parts(*self);
                    assert(delivered_for(g_subs, g_sts) == delivered_upto(g_subs, g_sts, n as int));
                }
                (out, Ghost(round))
            },
        }
    }

    /// Sends `message` under `tag` to all subscribed activities.
    ///
    /// The message joins a FIFO queue that this call then drains: each queued
    /// message is dispatched to its subscribers to completion, in
    /// registration order, before the next queued message starts. Messages
    /// that callbacks publish in turn join the tail of the same queue, so a
    /// handler's publishes are dispatched only after the current message's
    /// remaining subscribers have all run (breadth-complete ordering, never
    /// nested recursion). The call dispatches either every queued message or,
    /// when a chain of handlers keeps republishing, exactly [`DISPATCH_FUEL`]
    /// of them, abandoning the rest of the queue at that bound.
    pub fn publish(&mut self, tag: u64, message: M)
        requires
            old(self).wf(),
        ensures
            final(self).wf(),
            final(self).num_activities() == old(self).num_activities(),
            final(self).statuses() == old(self).statuses(),
            final(self).activity_domains() == old(self).activity_domains(),
            forall|t2: u64| #[trigger] final(self).topic_subs(t2) == old(self).topic_subs(t2),
            exists|processed: Seq<(u64, M)>, rounds: Seq<Seq<Delivery<A, M, D, H>>>|
                #![trigger flatten_rounds(rounds), processed[0]]
                {
                    &&& processed.len() == rounds.len()
                    &&& processed.len() >= 1
                    &&& processed[0] == (tag, message)
                    &&& final(self).history() == old(self).history() + flatten_rounds(rounds)
                    &&& forall|i: int|
                        0 <= i < rounds.len() ==> round_matches(
                            #[trigger] rounds[i],
                            delivered_for(
                                old(self).topic_subs(processed[i].0),
                                old(self).statuses(),
                            ),
                            processed[i].0,
                            processed[i].1,
                            old(self).activity_domains(),
                        )
                    &&& deliveries_chained(
                        old(self).datas(),
                        old(self).domain_maps(),
                        flatten_rounds(rounds),
                    )
                    &&& final(self).datas() == apply_data(old(self).datas(), flatten_rounds(rounds))
                    &&& final(self).domain_maps() == apply_stores(
                        old(self).domain_maps(),
                        flatten_rounds(rounds),
                    )
                    &&& processed == (seq![(tag, message)] + published_of(
                        flatten_rounds(rounds),
                    )).subrange(0, processed.len() as int)
                    &&& (processed.len() == (seq![(tag, message)] + published_of(
                        flatten_rounds(rounds),
                    )).len() || processed.len() == DISPATCH_FUEL)
                },
            delivered_for(old(self).topic_subs(tag), old(self).statuses()).len() == 0
                ==> final(self).history() == old(self).history() && final(self).datas() == old(self).datas() && final(self).domain_maps() == old(self).domain_maps(),
    {
        let ghost nut0 = *self;
        let ghost d0 = delivered_for(nut0.topic_subs(tag), nut0.statuses());
        let mut queue: Vec<(u64, M)> = Vec::new();
        queue.push((tag, message));
        let mut fuel: usize = DISPATCH_FUEL;
        let ghost mut processed: Seq<(u64, M)> = Seq::empty();
        let ghost mut rounds: Seq<Seq<Delivery<A, M, D, H>>> = Seq::empty();
        proof {
            assert(self.history() =~= nut0.history() + flatten_rounds(rounds));
            assert(processed + queue@ =~= seq![(tag, message)] + published_of(
                flatten_rounds(rounds),
            ));
        }
        while queue.len() > 0 && fuel > 0
            invariant
                self.wf(),
                nut0.same_registry(*self),
                d0 == delivered_for(nut0.topic_subs(tag), nut0.statuses()),
                processed.len() == rounds.len(),
                fuel as int + processed.len() == DISPATCH_FUEL as int,
                self.history() == nut0.history() + flatten_rounds(rounds),
                deliveries_chained(nut0.datas(), nut0.domain_maps(), flatten_rounds(rounds)),
                self.datas() == apply_data(nut0.datas(), flatten_rounds(rounds)),
                self.domain_maps() == apply_stores(nut0.domain_maps(), flatten_rounds(rounds)),
                processed + queue@ == seq![(tag, message)] + published_of(flatten_rounds(rounds)),
                forall|i: int|
                    0 <= i < rounds.len() ==> round_matches(
                        #[trigger] rounds[i],
                        delivered_for(nut0.topic_subs(processed[i].0), nut0.statuses()),
                        processed[i].0,
                        processed[i].1,
                        nut0.activity_domains(),
                    ),
                processed.len() >= 1 ==> processed[0] == (tag, message),
                processed.len() >= 1 && d0.len() == 0 ==> self.history() == nut0.history()
                    && self.datas() == nut0.datas() && self.domain_maps() == nut0.domain_maps()
                    && queue@.len() == 0,
            decreases fuel,
        {
            fuel = fuel - 1;
            let ghost q_pre = queue@;
            let (t, m) = queue.remove(0);
            let ghost pre = *self;
            let tmp = self.dispatch_one(t, m);
            let mut res = tmp.0;
            let ghost rd = tmp.1@;
            let ghost pub_rd = res@;
            queue.append(&mut res);
            proof {
                pre.lemma_same_registry_from_parts(pre);
                nut0.lemma_same_registry_trans(pre, *self);
                let flat = flatten_rounds(rounds);
                assert(rounds.push(rd).drop_last() =~= rounds);
                assert(flatten_rounds(rounds.push(rd)) == flat + rd);
                lemma_deliveries_append(nut0.datas(), nut0.domain_maps(), flat, rd);
                assert(pre.topic_subs(t) == nut0.topic_subs(t));
                assert(pre.statuses() == nut0.statuses());
                assert(pre.activity_domains() == nut0.activity_domains());
                assert(self.history() =~= nut0.history() + flatten_rounds(rounds.push(rd)));
                assert(pub_rd == published_of(rd));
                // the stream of enqueued messages grows by this round's output
                assert(queue@ =~= q_pre.remove(0) + pub_rd);
                assert(processed.push((t, m)) + queue@ =~= (processed + q_pre) + pub_rd);
                assert(seq![(tag, message)] + published_of(flat + rd) =~= (seq![(tag, message)]
                    + published_of(flat)) + pub_rd);
                if processed.len() == 0 {
                    assert(q_pre =~= seq![(tag, message)]);
                    assert(t == tag && m == message);
                    if d0.len() == 0 {
                        assert(rd.len() == 0);
                        assert(rd =~= Seq::<Delivery<A, M, D, H>>::empty());
                        assert(flatten_rounds(rounds.push(rd)) =~= Seq::<
                            Delivery<A, M, D, H>,
                        >::empty());
                        assert(self.history() =~= nut0.history());
                        assert(self.datas() == nut0.datas());
                        assert(self.domain_maps() == nut0.domain_maps());
                        assert(pub_rd =~= Seq::<(u64, M)>::empty());
                        assert(queue@ =~= Seq::<(u64, M)>::empty());
                    }
                }
                processed = processed.push((t, m));
                rounds = rounds.push(rd);
            }
        }
        proof {
            if processed.len() == 0 {
                assert(queue@ =~= seq![(tag, message)]);
                assert(false);
            }
            let stream = seq![(tag, message)] + published_of(flatten_rounds(rounds));
            assert(processed =~= stream.subrange(0, processed.len() as int));
            if queue.len() == 0 {
                assert(processed.len() == stream.len());
            } else {
                assert(fuel == 0);
                assert(processed.len() == DISPATCH_FUEL);
            }
        }
    }
}

/// The reached subscriptions depend only on the first `n` of the topic.
proof fn lemma_delivered_upto_agree<H>(
    s1: Seq<SubInfo<H>>,
    s2: Seq<SubInfo<H>>,
    statuses: Seq<LifecycleStatus>,
    n: int,
)
    requires
        forall|k: int| 0 <= k < n ==> s1[k] == s2[k],
    ensures
        delivered_upto(s1, statuses, n) == delivered_upto(s2, statuses, n),
    decreases n,
{
    if n > 0 {
        lemma_delivered_upto_agree(s1, s2, statuses, n - 1);
    }
}

/// Delivery order equals registration order: a subscription registered after
/// all existing ones is delivered after all of them (and exactly when its
/// filter passes), while the earlier deliveries are unchanged.
pub proof fn lemma_delivery_order_is_registration_order<H>(
    subs: Seq<SubInfo<H>>,
    sub: SubInfo<H>,
    statuses: Seq<LifecycleStatus>,
)
    ensures
        delivered_for(subs.push(sub), statuses) == delivered_for(subs, statuses) + if
        delivery_passes(sub, statuses) {
            seq![sub]
        } else {
            Seq::<SubInfo<H>>::empty()
        },
{
    lemma_delivered_upto_agree(subs.push(sub), subs, statuses, subs.len() as int);
    assert(subs.push(sub)[subs.len() as int] == sub);
}

/// A message with zero subscriptions reaches no callback.
pub proof fn lemma_no_subscribers_no_deliveries<H>(statuses: Seq<LifecycleStatus>)
    ensures
        delivered_for(Seq::<SubInfo<H>>::empty(), statuses) == Seq::<SubInfo<H>>::empty(),
{
}

/// An activity that receives no delivery keeps its private state.
pub proof fn lemma_undelivered_activity_unchanged<A, M, D, H>(
    datas: Seq<A>,
    ds: Seq<Delivery<A, M, D, H>>,
    a: int,
)
    requires
        0 <= a < datas.len(),
        forall|i: int|
            0 <= i < ds.len() ==> (#[trigger] ds[i]).activity as int != a && ds[i].activity
                < datas.len(),
    ensures
        apply_data(datas, ds).len() == datas.len(),
        apply_data(datas, ds)[a] == datas[a],
    decreases ds.len(),
{
    if ds.len() > 0 {
        lemma_undelivered_activity_unchanged(datas, ds.drop_last(), a);
        assert(ds[ds.len() - 1].activity as int != a);
    }
}

/// A domain that receives no domained delivery keeps its store.
pub proof fn lemma_undelivered_domain_unchanged<A, M, D, H>(
    stores: Map<u64, Map<u64, D>>,
    ds: Seq<Delivery<A, M, D, H>>,
    key: u64,
)
    requires
        forall|i: int| 0 <= i < ds.len() ==> (#[trigger] ds[i]).domain != key,
    ensures
        apply_stores(stores, ds).contains_key(key) == stores.contains_key(key),
        stores.contains_key(key) ==> apply_stores(stores, ds)[key] == stores[key],
    decreases ds.len(),
{
    if ds.len() > 0 {
        lemma_undelivered_domain_unchanged(stores, ds.drop_last(), key);
        assert(ds[ds.len() - 1].domain != key);
    }
}

/// Under the default filter, a subscription is delivered exactly while its
/// activity is active: publishing to an inactive activity does not invoke its
/// callback, and does again as soon as the activity is set active.
pub proof fn lemma_default_filter_delivery<H>(sub: SubInfo<H>, statuses: Seq<LifecycleStatus>)
    requires
        sub.filter.active_only == true,
        sub.activity < statuses.len(),
    ensures
        delivery_passes(sub, statuses) <==> statuses[sub.activity as int] is Active,
{
}

/// A subscription made with `no_filter` is delivered regardless of the
/// activity's lifecycle status.
pub proof fn lemma_no_filter_delivery<H>(sub: SubInfo<H>, statuses: Seq<LifecycleStatus>)
    requires
        sub.filter.active_only == false,
        sub.activity < statuses.len(),
    ensures
        delivery_passes(sub, statuses),
{
}

} // verus!

