use worterbuch::actor::Actor;
use worterbuch::codec::KeyValuePair;
use worterbuch::error::WorterbuchError;
use worterbuch::server::PStateEvent;
use worterbuch::subscribers::SubscriptionId;
use worterbuch::worterbuch::{Delivery, Outbox, WbAnswer, WbFunction, Worterbuch};

fn set(key: &str, value: &str) -> WbFunction {
    WbFunction::SetValue(key.to_owned(), value.to_owned(), "writer".to_owned())
}

fn told(client: u128, key: &str, value: &str) -> Delivery {
    Delivery {
        subscription: SubscriptionId::new(client, 1),
        event: PStateEvent::KeyValuePairs(vec![KeyValuePair::of(key, value)]),
    }
}

#[test]
fn requests_are_taken_in_the_order_in_which_they_came() {
    let mut actor = Actor::new(Worterbuch::new(), 8);
    assert_eq!(None, actor.step());
    assert_eq!(Ok(()), actor.submit(set("a", "1")));
    assert_eq!(Ok(()), actor.submit(WbFunction::Get("a".to_owned())));
    assert_eq!(Ok(()), actor.submit(set("a", "2")));
    assert_eq!(Ok(()), actor.submit(WbFunction::Get("a".to_owned())));
    assert_eq!(Ok(()), actor.submit(WbFunction::Get("b".to_owned())));
    assert_eq!(5, actor.backlog());
    assert_eq!(Some(Ok(WbAnswer::Done)), actor.step());
    assert_eq!(
        Some(Ok(WbAnswer::Value("a".to_owned(), "1".to_owned()))),
        actor.step()
    );
    assert_eq!(Some(Ok(WbAnswer::Done)), actor.step());
    assert_eq!(
        Some(Ok(WbAnswer::Value("a".to_owned(), "2".to_owned()))),
        actor.step()
    );
    assert_eq!(
        Some(Err(WorterbuchError::NoSuchValue("b".to_owned()))),
        actor.step()
    );
    assert_eq!(None, actor.step());
    assert_eq!(0, actor.backlog());
}

#[test]
fn a_full_queue_takes_no_request() {
    let mut actor = Actor::new(Worterbuch::new(), 2);
    assert_eq!(Ok(()), actor.submit(set("a", "1")));
    assert_eq!(Ok(()), actor.submit(set("a", "2")));
    assert_eq!(Err(set("a", "3")), actor.submit(set("a", "3")));
    assert_eq!(2, actor.backlog());
    assert_eq!(Some(Ok(WbAnswer::Done)), actor.step());
    assert_eq!(Ok(()), actor.submit(set("a", "4")));
    let mut none = Actor::new(Worterbuch::new(), 0);
    assert_eq!(Err(set("a", "1")), none.submit(set("a", "1")));
}

#[test]
fn a_subscription_hears_of_the_requests_in_their_order() {
    let mut actor = Actor::new(Worterbuch::new(), 16);
    let requests = vec![
        WbFunction::PSubscribe(1, 1, "k/#".to_owned(), false, true),
        WbFunction::PSubscribe(2, 1, "k/?".to_owned(), false, true),
        set("k/a", "1"),
        set("other", "x"),
        set("k/b", "2"),
        set("k/a", "3"),
        WbFunction::Delete("k/b".to_owned(), "writer".to_owned()),
    ];
    for request in requests {
        assert_eq!(Ok(()), actor.submit(request));
    }
    while actor.step().is_some() {}
    let outbox = actor.deliver();
    let deleted = |client: u128| Delivery {
        subscription: SubscriptionId::new(client, 1),
        event: PStateEvent::Deleted(vec!["k/b".to_owned()]),
    };
    assert_eq!(8, outbox.events.len());
    let of_first: Vec<Delivery> = outbox
        .events
        .iter()
        .filter(|d| d.subscription == SubscriptionId::new(1, 1))
        .map(|d| Delivery {
            subscription: d.subscription,
            event: d.event.clone(),
        })
        .collect();
    assert_eq!(
        vec![
            told(1, "k/a", "1"),
            told(1, "k/b", "2"),
            told(1, "k/a", "3"),
            deleted(1)
        ],
        of_first
    );
    let of_second: Vec<Delivery> = outbox
        .events
        .into_iter()
        .filter(|d| d.subscription == SubscriptionId::new(2, 1))
        .collect();
    assert_eq!(
        vec![
            told(2, "k/a", "1"),
            told(2, "k/b", "2"),
            told(2, "k/a", "3"),
            deleted(2)
        ],
        of_second
    );
    assert_eq!(
        Outbox {
            events: vec![],
            ls_events: vec![]
        },
        actor.deliver()
    );
}
