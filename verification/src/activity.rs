//! Activities: units of private state with a lifecycle status and a domain
//! membership, identified by stable handles.

use vstd::prelude::*;

verus! {

/// Lifecycle status of a registered activity. Deliveries under the default
/// subscription filter reach only `Active` activities.
#[derive(Clone, Copy, Debug, PartialEq, Eq, Structural)]
pub enum LifecycleStatus {
    /// The activity receives all deliveries its filters allow.
    Active,
    /// The activity is skipped by filters that require an active subscriber.
    Inactive,
}

impl LifecycleStatus {
    /// True exactly for `Active`.
    pub fn is_active(&self) -> (r: bool)
        ensures
            r == (*self is Active),
    {
        match self {
            LifecycleStatus::Active => true,
            LifecycleStatus::Inactive => false,
        }
    }
}

/// Handle to one registered activity: the index of its slot in the registry.
/// Slots are never reclaimed, so a handle stays valid for the life of the
/// dispatcher that issued it; handles compare by identity.
#[derive(Clone, Copy, Debug, PartialEq, Eq, Structural)]
pub struct ActivityId {
    /// Index of the activity's slot in the registry.
    pub index: usize,
}

/// Key naming a domain: a scope of shared state accessible to the activities
/// registered on it.
#[derive(Clone, Copy, Debug, PartialEq, Eq, Structural)]
pub struct DomainId {
    /// The numeric key of the domain.
    pub key: u64,
}

/// The reserved key of the default domain, used for activities registered
/// without an explicit domain, so that those can still share state.
pub const DEFAULT_DOMAIN_KEY: u64 = 0;

impl Default for DomainId {
    /// The reserved default domain.
    fn default() -> (r: Self)
        ensures
            r.key == DEFAULT_DOMAIN_KEY,
    {
        DomainId { key: DEFAULT_DOMAIN_KEY }
    }
}

impl DomainId {
    /// A domain with the given key.
    pub fn new(key: u64) -> (r: Self)
        ensures
            r.key == key,
    {
        DomainId { key }
    }
}

/// One registered activity: its private data, its lifecycle status, and the
/// domain it belongs to (the default domain when none was given).
pub(crate) struct ActivitySlot<A> {
    /// The user-supplied private state of the activity.
    pub(crate) data: A,
    /// Whether filtered deliveries currently reach the activity.
    pub(crate) status: LifecycleStatus,
    /// Key of the one domain the activity belongs to.
    pub(crate) domain: u64,
}

} // verus!
