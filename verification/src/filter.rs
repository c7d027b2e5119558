//! Subscription filters: under which circumstances a subscribing activity is
//! called when a message of its subscribed tag is published.

use crate::activity::LifecycleStatus;
use vstd::prelude::*;

verus! {

/// Defines under which circumstances a subscribing activity should be called.
/// At the moment, the only filter option is to check the activity lifecycle
/// state: the default filter skips delivery while the activity is inactive.
#[derive(Clone, Copy, Debug, PartialEq, Eq, Structural)]
pub struct SubscriptionFilter {
    /// Only call the subscribed handler when the activity is active.
    pub active_only: bool,
}

/// A delivery passes a filter exactly when the filter accepts the
/// lifecycle status of the subscribed activity.
pub open spec fn passes(filter: SubscriptionFilter, status: LifecycleStatus) -> bool {
    !filter.active_only || status is Active
}

impl Default for SubscriptionFilter {
    /// The default filter delivers only to active activities.
    fn default() -> (r: Self)
        ensures
            r.active_only == true,
    {
        SubscriptionFilter { active_only: true }
    }
}

impl SubscriptionFilter {
    /// Create a subscription filter that ensures the activity always receives
    /// a message, even when inactive.
    pub fn no_filter() -> (r: Self)
        ensures
            r.active_only == false,
    {
        SubscriptionFilter { active_only: false }
    }
}

} // verus!
