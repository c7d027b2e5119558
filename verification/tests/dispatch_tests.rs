use nuts::new_activity;
use nuts::new_domained_activity;
use nuts::publish;
use nuts::store_to_domain;
use nuts::DomainId;
use nuts::DomainState;
use nuts::Handler;
use nuts::LifecycleStatus;
use nuts::Nut;
use nuts::SubscriptionFilter;

/// Message tag most tests publish under.
const MSG: u64 = 7;
/// A second message tag, never subscribed to.
const OTHER: u64 = 8;
/// Tag of the value the domained tests keep in their domain store.
const VAL: u64 = 1;

/// Handlers for activities whose private state is a `Vec<u64>` log.
enum NumHandler {
    /// Appends the given marker to the activity's log.
    Mark(u64),
    /// Appends the received payload to the activity's log.
    Record,
    /// Appends the value stored under `VAL` in the activity's domain.
    ReadDomain,
    /// Appends the payload, then republishes the payload plus one under
    /// the `OTHER` tag.
    Forward,
}

impl Handler<Vec<u64>, u64, u64> for NumHandler {
    fn on_message(&self, activity: &mut Vec<u64>, message: &u64) -> Vec<(u64, u64)> {
        match self {
            NumHandler::Mark(marker) => activity.push(*marker),
            NumHandler::Record => activity.push(*message),
            NumHandler::ReadDomain => panic!("plain delivery of a domained handler"),
            NumHandler::Forward => {
                activity.push(*message);
                return vec![(OTHER, *message + 1)];
            }
        }
        Vec::new()
    }

    fn on_domained_message(
        &self,
        activity: &mut Vec<u64>,
        domain: &mut DomainState<u64>,
        message: &u64,
    ) -> Vec<(u64, u64)> {
        match self {
            NumHandler::ReadDomain => match domain.try_get(VAL) {
                Some(v) => activity.push(*v),
                None => activity.push(u64::MAX),
            },
            _ => {
                let _ = message;
                panic!("domained delivery of a plain handler");
            }
        }
        Vec::new()
    }
}

#[test]
fn publish_reaches_subscriber() {
    let mut nut: Nut<Vec<u64>, u64, u64, NumHandler> = Nut::new();
    let id = new_activity(&mut nut, Vec::new());
    nut.subscribe(id, MSG, SubscriptionFilter::default(), NumHandler::Record);
    publish(&mut nut, MSG, 17);
    publish(&mut nut, MSG, 289);
    assert_eq!(*nut.with_mut(id), vec![17, 289]);
}

#[test]
fn publish_without_subscribers_is_no_op() {
    let mut nut: Nut<Vec<u64>, u64, u64, NumHandler> = Nut::new();
    let id = new_activity(&mut nut, Vec::new());
    nut.subscribe(id, MSG, SubscriptionFilter::default(), NumHandler::Record);
    publish(&mut nut, OTHER, 5);
    assert_eq!(*nut.with_mut(id), Vec::<u64>::new());
}

#[test]
fn delivery_order_equals_registration_order() {
    let mut nut: Nut<Vec<u64>, u64, u64, NumHandler> = Nut::new();
    let id = new_activity(&mut nut, Vec::new());
    nut.subscribe(id, MSG, SubscriptionFilter::default(), NumHandler::Mark(1));
    nut.subscribe(id, MSG, SubscriptionFilter::default(), NumHandler::Mark(2));
    nut.subscribe(id, MSG, SubscriptionFilter::default(), NumHandler::Mark(3));
    publish(&mut nut, MSG, 0);
    assert_eq!(*nut.with_mut(id), vec![1, 2, 3]);
}

#[test]
fn resubscribing_fires_independently() {
    let mut nut: Nut<Vec<u64>, u64, u64, NumHandler> = Nut::new();
    let id = new_activity(&mut nut, Vec::new());
    nut.subscribe(id, MSG, SubscriptionFilter::default(), NumHandler::Record);
    nut.subscribe(id, MSG, SubscriptionFilter::default(), NumHandler::Record);
    publish(&mut nut, MSG, 4);
    assert_eq!(*nut.with_mut(id), vec![4, 4]);
}

#[test]
fn inactive_activity_skipped_then_delivered_when_active() {
    let mut nut: Nut<Vec<u64>, u64, u64, NumHandler> = Nut::new();
    let id = new_activity(&mut nut, Vec::new());
    nut.subscribe(id, MSG, SubscriptionFilter::default(), NumHandler::Record);
    nut.set_status(id, LifecycleStatus::Inactive);
    publish(&mut nut, MSG, 1);
    assert_eq!(*nut.with_mut(id), Vec::<u64>::new());
    nut.set_status(id, LifecycleStatus::Active);
    publish(&mut nut, MSG, 2);
    assert_eq!(*nut.with_mut(id), vec![2]);
}

#[test]
fn no_filter_delivers_regardless_of_status() {
    let mut nut: Nut<Vec<u64>, u64, u64, NumHandler> = Nut::new();
    let id = new_activity(&mut nut, Vec::new());
    nut.subscribe(id, MSG, SubscriptionFilter::no_filter(), NumHandler::Record);
    nut.set_status(id, LifecycleStatus::Inactive);
    publish(&mut nut, MSG, 1);
    nut.set_status(id, LifecycleStatus::Active);
    publish(&mut nut, MSG, 2);
    assert_eq!(*nut.with_mut(id), vec![1, 2]);
}

#[test]
fn filter_check_follows_status() {
    let mut nut: Nut<Vec<u64>, u64, u64, NumHandler> = Nut::new();
    let id = new_activity(&mut nut, Vec::new());
    assert!(nut.is_active(id));
    assert!(nut.filter(id, &SubscriptionFilter::default()));
    assert!(nut.filter(id, &SubscriptionFilter::no_filter()));
    nut.set_status(id, LifecycleStatus::Inactive);
    assert!(!nut.is_active(id));
    assert!(!nut.filter(id, &SubscriptionFilter::default()));
    assert!(nut.filter(id, &SubscriptionFilter::no_filter()));
}

#[test]
fn domained_subscriber_observes_stored_value() {
    let mut nut: Nut<Vec<u64>, u64, u64, NumHandler> = Nut::new();
    let dom = DomainId::new(3);
    store_to_domain(&mut nut, dom, VAL, 42);
    let id = new_domained_activity(&mut nut, Vec::new(), dom);
    nut.subscribe_domained(id, MSG, SubscriptionFilter::default(), NumHandler::ReadDomain);
    publish(&mut nut, MSG, 0);
    assert_eq!(*nut.with_mut(id), vec![42]);
}

#[test]
fn default_domain_activities_share_state() {
    let mut nut: Nut<Vec<u64>, u64, u64, NumHandler> = Nut::new();
    store_to_domain(&mut nut, DomainId::default(), VAL, 11);
    let id = new_activity(&mut nut, Vec::new());
    nut.subscribe_domained(id, MSG, SubscriptionFilter::default(), NumHandler::ReadDomain);
    publish(&mut nut, MSG, 0);
    assert_eq!(*nut.with_mut(id), vec![11]);
}

#[test]
fn republished_message_reaches_other_topic() {
    let mut nut: Nut<Vec<u64>, u64, u64, NumHandler> = Nut::new();
    let forwarder = new_activity(&mut nut, Vec::new());
    let receiver = new_activity(&mut nut, Vec::new());
    nut.subscribe(forwarder, MSG, SubscriptionFilter::default(), NumHandler::Forward);
    nut.subscribe(receiver, OTHER, SubscriptionFilter::default(), NumHandler::Record);
    publish(&mut nut, MSG, 5);
    assert_eq!(*nut.with_mut(forwarder), vec![5]);
    assert_eq!(*nut.with_mut(receiver), vec![6]);
}

#[test]
fn mixed_filters_on_inactive_activity() {
    let mut nut: Nut<Vec<u64>, u64, u64, NumHandler> = Nut::new();
    let id = new_activity(&mut nut, Vec::new());
    nut.subscribe(id, MSG, SubscriptionFilter::default(), NumHandler::Mark(1));
    nut.subscribe(id, MSG, SubscriptionFilter::no_filter(), NumHandler::Mark(2));
    nut.set_status(id, LifecycleStatus::Inactive);
    publish(&mut nut, MSG, 0);
    assert_eq!(*nut.with_mut(id), vec![2]);
}

#[test]
fn later_store_is_visible_to_later_publishes() {
    let mut nut: Nut<Vec<u64>, u64, u64, NumHandler> = Nut::new();
    let dom = DomainId::new(2);
    store_to_domain(&mut nut, dom, VAL, 1);
    let id = new_domained_activity(&mut nut, Vec::new(), dom);
    nut.subscribe_domained(id, MSG, SubscriptionFilter::default(), NumHandler::ReadDomain);
    publish(&mut nut, MSG, 0);
    store_to_domain(&mut nut, dom, VAL, 2);
    publish(&mut nut, MSG, 0);
    assert_eq!(*nut.with_mut(id), vec![1, 2]);
}

#[test]
fn with_mut_gives_access_to_private_state() {
    let mut nut: Nut<Vec<u64>, u64, u64, NumHandler> = Nut::new();
    let id = new_activity(&mut nut, vec![9]);
    nut.with_mut(id).push(10);
    assert_eq!(*nut.with_mut(id), vec![9, 10]);
}

/// Handlers for activities whose private state is a `Vec<String>` log.
struct Relay;

impl Handler<Vec<String>, u64, u64> for Relay {
    fn on_message(&self, activity: &mut Vec<String>, message: &u64) -> Vec<(u64, u64)> {
        activity.push(format!("Start {}", message));
        let republished = if *message < 3 {
            vec![(MSG, *message + 1)]
        } else {
            Vec::new()
        };
        activity.push(format!("End {}", message));
        republished
    }

    fn on_domained_message(
        &self,
        _activity: &mut Vec<String>,
        _domain: &mut DomainState<u64>,
        _message: &u64,
    ) -> Vec<(u64, u64)> {
        panic!("domained delivery of a plain handler");
    }
}

#[test]
fn nested_publish_runs_breadth_first() {
    let mut nut: Nut<Vec<String>, u64, u64, Relay> = Nut::new();
    let id = new_activity(&mut nut, Vec::new());
    nut.subscribe(id, MSG, SubscriptionFilter::default(), Relay);
    publish(&mut nut, MSG, 0);
    let expected: Vec<String> = vec![
        "Start 0", "End 0", "Start 1", "End 1", "Start 2", "End 2", "Start 3", "End 3",
    ]
    .into_iter()
    .map(|s| s.to_string())
    .collect();
    assert_eq!(*nut.with_mut(id), expected);
}
