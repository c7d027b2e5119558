//! An in-process publish/subscribe dispatcher.
//!
//! Producers publish tagged messages with no reference to consumers, and
//! consumers ("activities") register interest in a message tag with no
//! reference to producers. The connection between the two sides is resolved
//! purely by message tag at publish time, inside one [`Nut`] dispatcher value.

mod activity;
mod assoc;
mod dispatch;
mod domain;
mod filter;

pub use crate::activity::ActivityId;
pub use crate::activity::DomainId;
pub use crate::activity::LifecycleStatus;
pub use crate::activity::DEFAULT_DOMAIN_KEY;
pub use crate::dispatch::apply_data;
pub use crate::dispatch::apply_stores;
pub use crate::dispatch::deliveries_chained;
pub use crate::dispatch::delivered_for;
pub use crate::dispatch::delivered_upto;
pub use crate::dispatch::delivery_passes;
pub use crate::dispatch::flatten_rounds;
pub use crate::dispatch::lemma_default_filter_delivery;
pub use crate::dispatch::lemma_deliveries_append;
pub use crate::dispatch::lemma_delivery_order_is_registration_order;
pub use crate::dispatch::lemma_flatten_rounds_first;
pub use crate::dispatch::lemma_no_filter_delivery;
pub use crate::dispatch::lemma_no_subscribers_no_deliveries;
pub use crate::dispatch::lemma_undelivered_activity_unchanged;
pub use crate::dispatch::lemma_undelivered_domain_unchanged;
pub use crate::dispatch::published_of;
pub use crate::dispatch::round_matches;
pub use crate::dispatch::Delivery;
pub use crate::dispatch::Handler;
pub use crate::dispatch::Nut;
pub use crate::dispatch::SubInfo;
pub use crate::dispatch::DISPATCH_FUEL;
pub use crate::domain::lemma_store_round_trip;
pub use crate::domain::DomainState;
pub use crate::filter::passes;
pub use crate::filter::SubscriptionFilter;

use vstd::prelude::*;

verus! {

/// Consumes a value and registers it as an activity: the value becomes the
/// activity's private state, handed to its subscription callbacks on every
/// delivery. The activity joins the reserved default domain with `Active`
/// status. Never fails; the returned handle stays valid for the life of the
/// dispatcher.
pub fn new_activity<A, M, D, H>(nut: &mut Nut<A, M, D, H>, activity: A) -> (r: ActivityId)
    requires
        old(nut).wf(),
    ensures
        final(nut).wf(),
        r.index == old(nut).num_activities(),
        final(nut).num_activities() == old(nut).num_activities() + 1,
        final(nut).statuses() == old(nut).statuses().push(LifecycleStatus::Active),
        final(nut).activity_domains() == old(nut).activity_domains().push(DEFAULT_DOMAIN_KEY),
        final(nut).data_of(r.index as int) == activity,
        forall|i: int|
            0 <= i < old(nut).num_activities() ==> final(nut).data_of(i) == old(nut).data_of(i),
        forall|tag: u64| #[trigger] final(nut).topic_subs(tag) == old(nut).topic_subs(tag),
        forall|key: u64| #[trigger] final(nut).domain_map(key) == old(nut).domain_map(key),
        final(nut).history() == old(nut).history(),
{
    nut.register(activity, DomainId::new(DEFAULT_DOMAIN_KEY), LifecycleStatus::Active)
}

/// Consumes a value and registers it as an activity that has access to the
/// given domain: its domained subscription callbacks receive the domain's
/// shared store besides the activity's own state.
pub fn new_domained_activity<A, M, D, H>(nut: &mut Nut<A, M, D, H>, activity: A, domain: DomainId)
    -> (r: ActivityId)
    requires
        old(nut).wf(),
    ensures
        final(nut).wf(),
        r.index == old(nut).num_activities(),
        final(nut).num_activities() == old(nut).num_activities() + 1,
        final(nut).statuses() == old(nut).statuses().push(LifecycleStatus::Active),
        final(nut).activity_domains() == old(nut).activity_domains().push(domain.key),
        final(nut).data_of(r.index as int) == activity,
        forall|i: int|
            0 <= i < old(nut).num_activities() ==> final(nut).data_of(i) == old(nut).data_of(i),
        forall|tag: u64| #[trigger] final(nut).topic_subs(tag) == old(nut).topic_subs(tag),
        forall|key: u64| #[trigger] final(nut).domain_map(key) == old(nut).domain_map(key),
        final(nut).history() == old(nut).history(),
{
    nut.register(activity, domain, LifecycleStatus::Active)
}

/// Puts a data value into the store of the given domain, keyed by `tag`,
/// where all activities of that domain can access it. Overwrites any value
/// previously stored under the same tag (last writer wins).
///
/// This function needs exclusive access to the dispatcher, so it can only be
/// used outside of subscription callbacks — typically to initialize domain
/// state. Inside callbacks, domained subscriptions access their domain's
/// store through the handler's borrowed argument instead.
pub fn store_to_domain<A, M, D, H>(nut: &mut Nut<A, M, D, H>, domain: DomainId, tag: u64, data: D)
    requires
        old(nut).wf(),
    ensures
        final(nut).wf(),
        final(nut).domain_map(domain.key) == old(nut).domain_map(domain.key).insert(tag, data),
        forall|k2: u64|
            k2 != domain.key ==> #[trigger] final(nut).domain_map(k2) == old(nut).domain_map(k2),
        final(nut).num_activities() == old(nut).num_activities(),
        final(nut).statuses() == old(nut).statuses(),
        final(nut).activity_domains() == old(nut).activity_domains(),
        forall|i: int|
            0 <= i < old(nut).num_activities() ==> final(nut).data_of(i) == old(nut).data_of(i),
        forall|tag2: u64| #[trigger] final(nut).topic_subs(tag2) == old(nut).topic_subs(tag2),
        final(nut).history() == old(nut).history(),
{
    nut.write_domain(domain, tag, data)
}

/// Sends a message, as a tag paired with its payload, to all subscribed
/// activities. Fire-and-forget: nothing is reported about how many or which
/// subscribers ran.
///
/// The dispatch history grows by whole rounds, one per dispatched message in
/// FIFO order, starting with the published message: each round delivers to
/// exactly the passing subscriptions of that message's topic, in registration
/// order, handing each callback its activity's then-current private state and
/// its domain's then-current store, and a nested publish is never interleaved
/// within the current message's subscriber list. The queue is drained to the
/// end unless a chain of republishing handlers reaches the [`DISPATCH_FUEL`]
/// bound. A message with zero subscriptions completes without any callback
/// invocation and changes nothing.
pub fn publish<A, M, D, H: Handler<A, M, D>>(nut: &mut Nut<A, M, D, H>, tag: u64, message: M)
    requires
        old(nut).wf(),
    ensures
        final(nut).wf(),
        final(nut).num_activities() == old(nut).num_activities(),
        final(nut).statuses() == old(nut).statuses(),
        final(nut).activity_domains() == old(nut).activity_domains(),
        forall|t2: u64| #[trigger] final(nut).topic_subs(t2) == old(nut).topic_subs(t2),
        exists|processed: Seq<(u64, M)>, rounds: Seq<Seq<Delivery<A, M, D, H>>>|
            #![trigger flatten_rounds(rounds), processed[0]]
            {
                &&& processed.len() == rounds.len()
                &&& processed.len() >= 1
                &&& processed[0] == (tag, message)
                &&& final(nut).history() == old(nut).history() + flatten_rounds(rounds)
                &&& forall|i: int|
                    0 <= i < rounds.len() ==> round_matches(
                        #[trigger] rounds[i],
                        delivered_for(old(nut).topic_subs(processed[i].0), old(nut).statuses()),
                        processed[i].0,
                        processed[i].1,
                        old(nut).activity_domains(),
                    )
                &&& deliveries_chained(
                    old(nut).datas(),
                    old(nut).domain_maps(),
                    flatten_rounds(rounds),
                )
                &&& final(nut).datas() == apply_data(old(nut).datas(), flatten_rounds(rounds))
                &&& final(nut).domain_maps() == apply_stores(
                    old(nut).domain_maps(),
                    flatten_rounds(rounds),
                )
                &&& processed == (seq![(tag, message)] + published_of(
                    flatten_rounds(rounds),
                )).subrange(0, processed.len() as int)
                &&& (processed.len() == (seq![(tag, message)] + published_of(
                    flatten_rounds(rounds),
                )).len() || processed.len() == DISPATCH_FUEL)
            },
        delivered_for(old(nut).topic_subs(tag), old(nut).statuses()).len() == 0 ==> final(nut).history() == old(nut).history() && final(nut).datas() == old(nut).datas() && final(nut).domain_maps() == old(nut).domain_maps(),
{
    nut.publish(tag, message)
}

} // verus!
