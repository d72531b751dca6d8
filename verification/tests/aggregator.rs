use worterbuch::aggregator::{Aggregated, PStateAggregator};
use worterbuch::codec::KeyValuePair;
use worterbuch::server::{PState, PStateEvent};

fn pairs(pairs: &[(&str, &str)]) -> PStateEvent {
    PStateEvent::KeyValuePairs(pairs.iter().map(|(k, v)| KeyValuePair::of(k, v)).collect())
}

fn deleted(keys: &[&str]) -> PStateEvent {
    PStateEvent::Deleted(keys.iter().map(|k| k.to_string()).collect())
}

fn state(event: PStateEvent) -> PState {
    PState {
        transaction_id: 5,
        request_pattern: "a/#".to_owned(),
        event,
    }
}

#[test]
fn ten_values_of_one_key_within_a_window_become_one_state() {
    let mut aggregator = PStateAggregator::new(5, "a/#".to_owned(), false);
    assert_eq!(
        Aggregated::Forward(state(pairs(&[]))),
        aggregator.aggregate(pairs(&[]))
    );
    for i in 0..10 {
        let r = aggregator.aggregate(pairs(&[("a/x", &i.to_string())]));
        assert_eq!(
            Aggregated::Kept {
                window_starts: i == 0
            },
            r
        );
    }
    assert_eq!(vec![state(pairs(&[("a/x", "9")]))], aggregator.flush());
    assert_eq!(Vec::<PState>::new(), aggregator.flush());
}

#[test]
fn a_live_only_subscription_has_no_first_event_to_forward() {
    let mut aggregator = PStateAggregator::new(5, "a/#".to_owned(), true);
    assert_eq!(
        Aggregated::Kept {
            window_starts: true
        },
        aggregator.aggregate(pairs(&[("a/x", "1")]))
    );
    assert_eq!(vec![state(pairs(&[("a/x", "1")]))], aggregator.flush());
}

#[test]
fn keys_keep_the_order_in_which_they_changed_first() {
    let mut aggregator = PStateAggregator::new(5, "a/#".to_owned(), true);
    aggregator.aggregate(pairs(&[("a/z", "1"), ("a/y", "1")]));
    aggregator.aggregate(pairs(&[("a/x", "1")]));
    aggregator.aggregate(pairs(&[("a/y", "2"), ("a/z", "2")]));
    assert_eq!(
        vec![state(pairs(&[("a/z", "2"), ("a/y", "2"), ("a/x", "1")]))],
        aggregator.flush()
    );
    assert_eq!(
        Aggregated::Kept {
            window_starts: true
        },
        aggregator.aggregate(pairs(&[("a/x", "3")]))
    );
}

#[test]
fn the_last_change_of_a_key_wins_over_a_deletion_and_the_other_way_round() {
    let mut aggregator = PStateAggregator::new(5, "a/#".to_owned(), true);
    aggregator.aggregate(pairs(&[("a/x", "1"), ("a/y", "1")]));
    aggregator.aggregate(deleted(&["a/x", "a/w"]));
    aggregator.aggregate(pairs(&[("a/w", "2")]));
    aggregator.aggregate(deleted(&["a/y"]));
    assert_eq!(
        vec![
            state(pairs(&[("a/w", "2")])),
            state(deleted(&["a/x", "a/y"]))
        ],
        aggregator.flush()
    );
    assert_eq!(
        Aggregated::Kept {
            window_starts: false
        },
        aggregator.aggregate(pairs(&[]))
    );
    assert_eq!(Vec::<PState>::new(), aggregator.flush());
}
