use uuid::Uuid;
use worterbuch::key::{parse_segments, KeySegment, RegularKeySegment};
use worterbuch::subscribers::{Selection, Subscriber, Subscribers, SubscriptionId};

fn reg_key_segs(key: &str) -> Vec<RegularKeySegment> {
    parse_segments(key).unwrap()
}

fn key_segs(key: &str) -> Vec<KeySegment> {
    KeySegment::parse(key)
}

#[test]
fn get_subscribers() {
    let mut subscribers = Subscribers::default();

    let pattern = KeySegment::parse("test/?/b/#");
    let id = SubscriptionId {
        client_id: Uuid::new_v4().as_u128(),
        transaction_id: 123,
    };
    let subscriber = Subscriber::new(
        id,
        pattern.clone().into_iter().map(|s| s.to_owned()).collect(),
        false,
    );

    subscribers.add_subscriber(&pattern, subscriber);

    let res = subscribers.get_subscribers(&reg_key_segs("test/a/b/c/d"));
    assert_eq!(res.len(), 1);

    let res = subscribers.get_subscribers(&reg_key_segs("test/a/b"));
    assert_eq!(res.len(), 0);
}

#[test]
fn subscribers_are_cleaned_up() {
    let mut subscribers = Subscribers::default();

    let pattern = key_segs("test/?/b/#");
    let id = SubscriptionId {
        client_id: Uuid::new_v4().as_u128(),
        transaction_id: 123,
    };
    let subscriber = Subscriber::new(
        id.clone(),
        pattern.clone().into_iter().map(|s| s.to_owned()).collect(),
        false,
    );

    let res = subscribers.get_subscribers(&reg_key_segs("test/a/b/c/d"));
    assert_eq!(res.len(), 0);

    subscribers.add_subscriber(&pattern, subscriber);

    let res = subscribers.get_subscribers(&reg_key_segs("test/a/b/c/d"));
    assert_eq!(res.len(), 1);

    subscribers.unsubscribe(&pattern, &id);

    let res = subscribers.get_subscribers(&reg_key_segs("test/a/b/c/d"));
    assert_eq!(res.len(), 0);
}

fn sub(client: u128, tid: u64, pattern: &str, unique: bool) -> (Vec<KeySegment>, Subscriber) {
    let pattern = key_segs(pattern);
    let subscriber = Subscriber::new(SubscriptionId::new(client, tid), pattern.clone(), unique);
    (pattern, subscriber)
}

fn ids(found: &[Subscriber]) -> Vec<(u128, u64)> {
    let mut ids: Vec<(u128, u64)> = found
        .iter()
        .map(|s| (s.id().client_id, s.id().transaction_id))
        .collect();
    ids.sort();
    ids
}

#[test]
fn a_key_finds_the_subscribers_of_every_matching_pattern_once() {
    let mut subscribers = Subscribers::new();
    for (tid, pattern) in [
        (1, "a/b/c"),
        (2, "a/?/c"),
        (3, "a/#"),
        (4, "#"),
        (5, "?/?/?"),
        (6, "a/b"),
        (7, "a/b/c/#"),
        (8, "a/b/?"),
        (9, "x/b/c"),
        (10, "a/b/c"),
    ] {
        let (pattern, subscriber) = sub(7, tid, pattern, false);
        subscribers.add_subscriber(&pattern, subscriber);
    }
    let found = subscribers.get_subscribers(&reg_key_segs("a/b/c"));
    assert_eq!(
        ids(&found),
        vec![(7, 1), (7, 2), (7, 3), (7, 4), (7, 5), (7, 8), (7, 10)]
    );
    let found = subscribers.get_subscribers(&reg_key_segs("a"));
    assert_eq!(ids(&found), vec![(7, 4)]);
    let found = subscribers.get_subscribers(&reg_key_segs("a/b/c/d"));
    assert_eq!(ids(&found), vec![(7, 3), (7, 4), (7, 7)]);
}

#[test]
fn a_multi_wildcard_before_the_end_matches_nothing() {
    let mut subscribers = Subscribers::new();
    let (pattern, subscriber) = sub(1, 1, "a/#/c", false);
    subscribers.add_subscriber(&pattern, subscriber);
    assert_eq!(0, subscribers.get_subscribers(&reg_key_segs("a/b/c")).len());
    assert_eq!(0, subscribers.get_subscribers(&reg_key_segs("a/b")).len());
}

#[test]
fn unsubscribe_says_whether_the_subscription_was_there() {
    let mut subscribers = Subscribers::new();
    let (pattern, subscriber) = sub(1, 1, "a/?", true);
    assert!(subscriber.is_unique());
    subscribers.add_subscriber(&pattern, subscriber);
    assert!(!subscribers.unsubscribe(&pattern, &SubscriptionId::new(1, 2)));
    assert!(!subscribers.unsubscribe(&key_segs("a/b"), &SubscriptionId::new(1, 1)));
    assert!(subscribers.unsubscribe(&pattern, &SubscriptionId::new(1, 1)));
    assert!(!subscribers.unsubscribe(&pattern, &SubscriptionId::new(1, 1)));
}

#[test]
fn remove_subscriber_goes_by_the_pattern_of_the_subscriber() {
    let mut subscribers = Subscribers::new();
    let (pattern, subscriber) = sub(1, 1, "a/?", false);
    let copy = subscriber.copy();
    assert_eq!(copy.pattern(), &pattern);
    subscribers.add_subscriber(&pattern, subscriber);
    subscribers.remove_subscriber(copy);
    assert_eq!(0, subscribers.get_subscribers(&reg_key_segs("a/b")).len());
}

#[test]
fn removing_a_client_removes_all_its_subscriptions_and_no_other() {
    let mut subscribers = Subscribers::new();
    for (client, tid, pattern) in [(1, 1, "a/#"), (1, 2, "a/b"), (2, 1, "a/b"), (1, 3, "?/b")] {
        let (pattern, subscriber) = sub(client, tid, pattern, false);
        subscribers.add_subscriber(&pattern, subscriber);
    }
    assert!(subscribers.remove_selected(&Selection::Client(1)));
    assert!(!subscribers.remove_selected(&Selection::Client(1)));
    let found = subscribers.get_subscribers(&reg_key_segs("a/b"));
    assert_eq!(ids(&found), vec![(2, 1)]);
    assert!(!subscribers.remove_selected(&Selection::Subscription(SubscriptionId::new(2, 2))));
    assert!(subscribers.remove_selected(&Selection::Subscription(SubscriptionId::new(2, 1))));
    assert_eq!(0, subscribers.get_subscribers(&reg_key_segs("a/b")).len());
}
