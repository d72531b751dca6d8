use worterbuch::codec::{KeyValuePair, ProtocolVersion};
use worterbuch::error::WorterbuchError;
use worterbuch::server::{Handshake, PStateEvent};
use worterbuch::subscribers::SubscriptionId;
use worterbuch::worterbuch::{
    Client, Delivery, LsDelivery, Outbox, WbAnswer, WbFunction, WbReply, Worterbuch,
};

const CLIENT: &str = "7b0e8a7c-client";

fn kv(key: &str, value: &str) -> KeyValuePair {
    KeyValuePair::of(key, value)
}

fn value_event(client: u128, tid: u64, key: &str, value: &str) -> Delivery {
    Delivery {
        subscription: SubscriptionId::new(client, tid),
        event: PStateEvent::KeyValuePairs(vec![kv(key, value)]),
    }
}

fn deleted_event(client: u128, tid: u64, key: &str) -> Delivery {
    Delivery {
        subscription: SubscriptionId::new(client, tid),
        event: PStateEvent::Deleted(vec![key.to_owned()]),
    }
}

fn ls_event(client: u128, tid: u64, children: &[&str]) -> LsDelivery {
    LsDelivery {
        subscription: SubscriptionId::new(client, tid),
        children: children.iter().map(|c| c.to_string()).collect(),
    }
}

fn set(wb: &mut Worterbuch, key: &str, value: &str) -> Outbox {
    wb.set(key, value.to_owned(), CLIENT).unwrap()
}

#[test]
fn pget_with_a_wildcard_finds_both_children() {
    let mut wb = Worterbuch::new();
    set(&mut wb, "a/b", "1");
    set(&mut wb, "a/c", "2");
    assert_eq!(Ok(vec![kv("a/b", "1"), kv("a/c", "2")]), wb.pget("a/?"));
    assert_eq!(2, wb.len());
}

#[test]
fn a_subscriber_with_a_wildcard_is_told_of_a_matching_key() {
    let mut wb = Worterbuch::new();
    let (id, first) = wb.subscribe(1, 10, "x/?/z", false, false).unwrap();
    assert_eq!(SubscriptionId::new(1, 10), id);
    assert_eq!(
        Some(Delivery {
            subscription: id,
            event: PStateEvent::KeyValuePairs(vec![])
        }),
        first
    );
    let outbox = set(&mut wb, "x/y/z", "7");
    assert_eq!(vec![value_event(1, 10, "x/y/z", "7")], outbox.events);
    let outbox = set(&mut wb, "x/y/q", "7");
    assert_eq!(Vec::<Delivery>::new(), outbox.events);
}

#[test]
fn a_unique_subscription_is_told_of_the_same_value_once() {
    let mut wb = Worterbuch::new();
    wb.psubscribe(1, 1, "root/#", true, false).unwrap();
    wb.psubscribe(2, 1, "root/#", false, false).unwrap();
    let first = set(&mut wb, "root/a/b", "1");
    assert_eq!(
        vec![
            value_event(1, 1, "root/a/b", "1"),
            value_event(2, 1, "root/a/b", "1")
        ],
        first.events
    );
    let second = set(&mut wb, "root/a/b", "1");
    assert_eq!(vec![value_event(2, 1, "root/a/b", "1")], second.events);
    let third = set(&mut wb, "root/a/b", "2");
    assert_eq!(2, third.events.len());
}

#[test]
fn a_unique_subscription_has_seen_its_snapshot() {
    let mut wb = Worterbuch::new();
    set(&mut wb, "a/x", "1");
    let (_, first) = wb.psubscribe(1, 1, "a/#", true, false).unwrap();
    assert_eq!(
        Some(value_event(1, 1, "a/x", "1")),
        first
    );
    assert_eq!(0, set(&mut wb, "a/x", "1").events.len());

    let (_, none) = wb.psubscribe(1, 2, "a/#", true, true).unwrap();
    assert_eq!(None, none);
    assert_eq!(vec![value_event(1, 2, "a/x", "1")], set(&mut wb, "a/x", "1").events);
    assert_eq!(0, set(&mut wb, "a/x", "1").events.len());
}

#[test]
fn a_deleted_value_is_gone() {
    let mut wb = Worterbuch::new();
    set(&mut wb, "k", "1");
    wb.subscribe(1, 1, "k", true, true).unwrap();
    let (pair, outbox) = wb.delete("k", CLIENT).unwrap();
    assert_eq!(kv("k", "1"), pair);
    assert_eq!(vec![deleted_event(1, 1, "k")], outbox.events);
    assert_eq!(Err(WorterbuchError::NoSuchValue("k".to_owned())), wb.get("k"));
    assert_eq!(
        Err(WorterbuchError::NoSuchValue("k".to_owned())),
        wb.delete("k", CLIENT).map(|_| ())
    );
    // what was seen under the key is forgotten with the key
    assert_eq!(1, set(&mut wb, "k", "1").events.len());
}

#[test]
fn system_keys_are_read_only_for_clients() {
    let mut wb = Worterbuch::new();
    assert_eq!(
        Err(WorterbuchError::ReadOnlyKey("$SYS/uptime".to_owned())),
        wb.set("$SYS/uptime", "0".to_owned(), CLIENT)
    );
    assert!(wb
        .set("$SYS/uptime", "0".to_owned(), "internal_client_id")
        .is_ok());
    assert_eq!(
        Ok(("$SYS/uptime".to_owned(), "0".to_owned())),
        wb.get("$SYS/uptime")
    );
    assert_eq!(
        Err(WorterbuchError::ReadOnlyKey("$SYS/uptime".to_owned())),
        wb.delete("$SYS/uptime", CLIENT).map(|_| ())
    );
    assert_eq!(
        Err(WorterbuchError::ReadOnlyKey("#".to_owned())),
        wb.pdelete("#", CLIENT).map(|_| ())
    );
    assert_eq!(
        Err(WorterbuchError::ReadOnlyKey("$SYS/?".to_owned())),
        wb.pdelete("$SYS/?", CLIENT).map(|_| ())
    );
    assert!(wb.set("$SYS", "x".to_owned(), CLIENT).is_ok());
    assert!(wb.delete("$SYS/uptime", "internal_client_id").is_ok());
}

#[test]
fn publish_tells_the_subscribers_and_stores_nothing() {
    let mut wb = Worterbuch::new();
    wb.subscribe(1, 1, "a", false, true).unwrap();
    let outbox = wb.publish("a", "1".to_owned()).unwrap();
    assert_eq!(vec![value_event(1, 1, "a", "1")], outbox.events);
    assert_eq!(Err(WorterbuchError::NoSuchValue("a".to_owned())), wb.get("a"));
    set(&mut wb, "a", "0");
    wb.publish("a", "1".to_owned()).unwrap();
    assert_eq!(Ok(("a".to_owned(), "0".to_owned())), wb.get("a"));
}

#[test]
fn illegal_keys_and_patterns_are_refused() {
    let mut wb = Worterbuch::new();
    assert_eq!(
        Err(WorterbuchError::IllegalWildcard("a/?".to_owned())),
        wb.set("a/?", "1".to_owned(), CLIENT)
    );
    assert_eq!(
        Err(WorterbuchError::IllegalMultiWildcard("a/#".to_owned())),
        wb.get("a/#")
    );
    assert_eq!(
        Err(WorterbuchError::MultiWildcardAtIllegalPosition("#/a".to_owned())),
        wb.pget("#/a")
    );
    assert_eq!(
        Err(WorterbuchError::MultiWildcardAtIllegalPosition("#/a".to_owned())),
        wb.psubscribe(1, 1, "#/a", false, false).map(|_| ())
    );
    assert_eq!(
        Err(WorterbuchError::IllegalWildcard("?".to_owned())),
        wb.ls(&Some("?".to_owned()))
    );
    assert_eq!(
        Err(WorterbuchError::IllegalWildcard("?".to_owned())),
        wb.publish("?", "1".to_owned())
    );
}

#[test]
fn ls_subscribers_hear_of_new_children_once() {
    let mut wb = Worterbuch::new();
    let (_, first) = wb.subscribe_ls(1, 1, &Some("a/b".to_owned())).unwrap();
    assert_eq!(ls_event(1, 1, &[]), first);
    let (_, first) = wb.subscribe_ls(2, 1, &None).unwrap();
    assert_eq!(ls_event(2, 1, &[]), first);
    wb.subscribe_ls(3, 1, &Some("a".to_owned())).unwrap();

    let outbox = set(&mut wb, "a/b/c", "1");
    assert_eq!(
        vec![
            ls_event(2, 1, &["a"]),
            ls_event(3, 1, &["b"]),
            ls_event(1, 1, &["c"])
        ],
        outbox.ls_events
    );
    // an overwrite changes no set of children
    assert_eq!(0, set(&mut wb, "a/b/c", "2").ls_events.len());
    let outbox = set(&mut wb, "a/b/a", "1");
    assert_eq!(vec![ls_event(1, 1, &["a", "c"])], outbox.ls_events);
    // a value at an inner node changes no set of children
    assert_eq!(0, set(&mut wb, "a/b", "1").ls_events.len());

    let (_, outbox) = wb.delete("a/b/c", CLIENT).unwrap();
    assert_eq!(vec![ls_event(1, 1, &["a"])], outbox.ls_events);
    let (_, outbox) = wb.delete("a/b/a", CLIENT).unwrap();
    assert_eq!(vec![ls_event(1, 1, &[])], outbox.ls_events);
    let (_, outbox) = wb.delete("a/b", CLIENT).unwrap();
    assert_eq!(
        vec![ls_event(2, 1, &[]), ls_event(3, 1, &[])],
        outbox.ls_events
    );
    assert_eq!(Ok(vec![]), wb.ls(&None));
    assert_eq!(
        Err(WorterbuchError::NoSuchValue("a".to_owned())),
        wb.ls(&Some("a".to_owned()))
    );
}

#[test]
fn pdelete_removes_key_by_key() {
    let mut wb = Worterbuch::new();
    for key in ["a/b", "a/c", "a/d/e", "x"] {
        set(&mut wb, key, "1");
    }
    wb.psubscribe(1, 1, "a/?", false, true).unwrap();
    wb.subscribe_ls(1, 2, &Some("a".to_owned())).unwrap();
    let (pairs, outbox) = wb.pdelete("a/#", CLIENT).unwrap();
    assert_eq!(vec![kv("a/b", "1"), kv("a/c", "1"), kv("a/d/e", "1")], pairs);
    assert_eq!(
        vec![deleted_event(1, 1, "a/b"), deleted_event(1, 1, "a/c")],
        outbox.events
    );
    assert_eq!(
        vec![
            ls_event(1, 2, &["c", "d"]),
            ls_event(1, 2, &["d"]),
            ls_event(1, 2, &[])
        ],
        outbox.ls_events
    );
    assert_eq!(Ok(vec![kv("x", "1")]), wb.pget("#"));
}

#[test]
fn unsubscribe_ends_a_subscription() {
    let mut wb = Worterbuch::new();
    wb.psubscribe(1, 1, "a/#", false, true).unwrap();
    assert_eq!(Err(WorterbuchError::NotSubscribed), wb.unsubscribe(1, 2));
    assert_eq!(Err(WorterbuchError::NotSubscribed), wb.unsubscribe(2, 1));
    assert_eq!(Ok(()), wb.unsubscribe(1, 1));
    assert_eq!(Err(WorterbuchError::NotSubscribed), wb.unsubscribe(1, 1));
    assert_eq!(0, set(&mut wb, "a/b", "1").events.len());

    wb.subscribe_ls(1, 1, &None).unwrap();
    assert_eq!(Err(WorterbuchError::NotSubscribed), wb.unsubscribe_ls(1, 2));
    assert_eq!(Ok(()), wb.unsubscribe_ls(1, 1));
    assert_eq!(Err(WorterbuchError::NotSubscribed), wb.unsubscribe_ls(1, 1));
    assert_eq!(0, set(&mut wb, "c", "1").ls_events.len());
}

#[test]
fn a_second_subscription_of_the_same_name_replaces_the_first() {
    let mut wb = Worterbuch::new();
    wb.psubscribe(1, 1, "a/#", false, true).unwrap();
    wb.psubscribe(1, 1, "b/#", false, true).unwrap();
    assert_eq!(0, set(&mut wb, "a/x", "1").events.len());
    assert_eq!(1, set(&mut wb, "b/x", "1").events.len());
}

#[test]
fn nothing_of_a_client_is_left_when_it_is_gone() {
    let mut wb = Worterbuch::new();
    wb.psubscribe(1, 1, "a/#", true, true).unwrap();
    wb.psubscribe(1, 2, "#", false, true).unwrap();
    wb.subscribe(2, 1, "a/b", false, true).unwrap();
    wb.subscribe_ls(1, 3, &None).unwrap();
    wb.subscribe_ls(2, 2, &None).unwrap();
    assert_eq!(None, wb.disconnected(1));
    let outbox = set(&mut wb, "a/b", "1");
    assert_eq!(vec![value_event(2, 1, "a/b", "1")], outbox.events);
    assert_eq!(vec![ls_event(2, 2, &["a"])], outbox.ls_events);
    assert_eq!(Err(WorterbuchError::NotSubscribed), wb.unsubscribe(1, 1));
    assert_eq!(Err(WorterbuchError::NotSubscribed), wb.unsubscribe_ls(1, 3));
}

#[test]
fn a_client_leaves_its_will_and_takes_its_goods() {
    let mut wb = Worterbuch::new();
    set(&mut wb, "clients/7/online", "true");
    set(&mut wb, "clients/7/tmp/a", "1");
    set(&mut wb, "clients/7/tmp/b", "2");
    let reply = wb.process(WbFunction::Connected(
        7,
        vec![kv("clients/7/online", "false"), kv("a/?", "refused")],
        vec!["clients/7/tmp/#".to_owned(), "#/x".to_owned()],
    ));
    assert_eq!(Ok(WbAnswer::Done), reply.answer);
    wb.psubscribe(7, 1, "#", false, true).unwrap();
    wb.psubscribe(8, 1, "clients/#", false, true).unwrap();
    let WbReply { answer, outbox } = wb.process(WbFunction::Disconnected(7));
    assert_eq!(Ok(WbAnswer::Done), answer);
    assert_eq!(
        vec![
            deleted_event(8, 1, "clients/7/tmp/a"),
            deleted_event(8, 1, "clients/7/tmp/b"),
            value_event(8, 1, "clients/7/online", "false"),
        ],
        outbox.events
    );
    assert_eq!(
        Ok(vec![kv("clients/7/online", "false")]),
        wb.pget("#")
    );
    assert_eq!(None, wb.disconnected(7));
    wb.connected(9, vec![], vec!["a".to_owned()]);
    wb.connected(9, vec![kv("b", "1")], vec![]);
    assert_eq!(
        Some(Client {
            id: 9,
            last_will: vec![kv("b", "1")],
            grave_goods: vec![]
        }),
        wb.disconnected(9)
    );
}

#[test]
fn process_answers_every_request() {
    let mut wb = Worterbuch::new();
    let reply = wb.process(WbFunction::SetValue(
        "a/b".to_owned(),
        "1".to_owned(),
        CLIENT.to_owned(),
    ));
    assert_eq!(Ok(WbAnswer::Done), reply.answer);
    assert_eq!(
        Ok(WbAnswer::Value("a/b".to_owned(), "1".to_owned())),
        wb.process(WbFunction::Get("a/b".to_owned())).answer
    );
    assert_eq!(
        Ok(WbAnswer::Pairs(vec![kv("a/b", "1")])),
        wb.process(WbFunction::PGet("a/?".to_owned())).answer
    );
    assert_eq!(
        Ok(WbAnswer::Children(vec!["b".to_owned()])),
        wb.process(WbFunction::Ls(Some("a".to_owned()))).answer
    );
    assert_eq!(Ok(WbAnswer::Len(1)), wb.process(WbFunction::Len).answer);
    assert_eq!(
        Ok(WbAnswer::Version(ProtocolVersion { major: 0, minor: 6 })),
        wb.process(WbFunction::SupportedProtocolVersion).answer
    );
    let reply = wb.process(WbFunction::Subscribe(1, 2, "a/?".to_owned(), false, false));
    assert_eq!(
        Ok(WbAnswer::Subscribed(SubscriptionId::new(1, 2))),
        reply.answer
    );
    assert_eq!(vec![value_event(1, 2, "a/b", "1")], reply.outbox.events);
    let reply = wb.process(WbFunction::SubscribeLs(1, 3, Some("a".to_owned())));
    assert_eq!(vec![ls_event(1, 3, &["b"])], reply.outbox.ls_events);
    let reply = wb.process(WbFunction::Publish("a/c".to_owned(), "2".to_owned()));
    assert_eq!(vec![value_event(1, 2, "a/c", "2")], reply.outbox.events);
    let reply = wb.process(WbFunction::Delete("a/b".to_owned(), CLIENT.to_owned()));
    assert_eq!(Ok(WbAnswer::Deleted(kv("a/b", "1"))), reply.answer);
    assert_eq!(vec![deleted_event(1, 2, "a/b")], reply.outbox.events);
    assert_eq!(vec![ls_event(1, 3, &[])], reply.outbox.ls_events);
    assert_eq!(
        Err(WorterbuchError::NoSuchValue("a/b".to_owned())),
        wb.process(WbFunction::Delete("a/b".to_owned(), CLIENT.to_owned()))
            .answer
    );
    assert_eq!(
        Ok(WbAnswer::Pairs(vec![])),
        wb.process(WbFunction::PDelete("#".to_owned(), CLIENT.to_owned()))
            .answer
    );
    assert_eq!(
        Ok(WbAnswer::Done),
        wb.process(WbFunction::Unsubscribe(1, 2)).answer
    );
    assert_eq!(
        Err(WorterbuchError::NotSubscribed),
        wb.process(WbFunction::Unsubscribe(1, 2)).answer
    );
    assert_eq!(
        Ok(WbAnswer::Done),
        wb.process(WbFunction::UnsubscribeLs(1, 3)).answer
    );
}

#[test]
fn export_gives_every_pair_in_the_order_of_the_walk() {
    let mut wb = Worterbuch::new();
    assert_eq!(Vec::<KeyValuePair>::new(), wb.export());
    wb.set("b/x", "2".to_owned(), CLIENT).unwrap();
    wb.set("a", "1".to_owned(), CLIENT).unwrap();
    wb.set("a/c/d", "4".to_owned(), CLIENT).unwrap();
    wb.set("a/b", "3".to_owned(), CLIENT).unwrap();
    let all = vec![
        kv("a", "1"),
        kv("a/b", "3"),
        kv("a/c/d", "4"),
        kv("b/x", "2"),
    ];
    assert_eq!(all, wb.export());
    assert_eq!(Ok(all.clone()), wb.pget("#"));
    assert_eq!(
        Ok(WbAnswer::Pairs(all)),
        wb.process(WbFunction::Export).answer
    );
}

#[test]
fn handshake_agrees_on_the_version_of_the_engine() {
    let mut wb = Worterbuch::new();
    let offered = vec![
        ProtocolVersion { major: 0, minor: 5 },
        ProtocolVersion { major: 0, minor: 6 },
        ProtocolVersion { major: 1, minor: 0 },
    ];
    assert_eq!(
        Ok(Handshake {
            protocol_version: ProtocolVersion { major: 0, minor: 6 },
            separator: '/',
            wildcard: '?',
            multi_wildcard: '#',
        }),
        wb.handshake(&offered, vec![kv("will", "1")], vec!["goods/#".to_owned()], 7)
    );
    wb.set("goods/a", "1".to_owned(), CLIENT).unwrap();
    wb.process(WbFunction::Disconnected(7));
    assert_eq!(vec![kv("will", "1")], wb.export());
}

#[test]
fn handshake_fails_where_no_version_is_shared() {
    let mut wb = Worterbuch::new();
    let offered = vec![
        ProtocolVersion { major: 0, minor: 5 },
        ProtocolVersion { major: 6, minor: 0 },
    ];
    assert_eq!(
        Err(WorterbuchError::ProtocolNegotiationFailed),
        wb.handshake(&offered, vec![kv("will", "1")], vec![], 7)
    );
    assert_eq!(
        Err(WorterbuchError::ProtocolNegotiationFailed),
        wb.handshake(&vec![], vec![], vec![], 7)
    );
    wb.process(WbFunction::Disconnected(7));
    assert_eq!(Vec::<KeyValuePair>::new(), wb.export());
}

#[test]
fn two_engines_that_take_the_same_requests_tell_the_same_story() {
    let mut one = Worterbuch::new();
    let mut other = Worterbuch::new();
    let mut heard_by_one: Vec<Delivery> = Vec::new();
    let mut heard_by_other: Vec<Delivery> = Vec::new();
    for wb in [&mut one, &mut other] {
        wb.psubscribe(1, 1, "k/#", false, true).unwrap();
        wb.psubscribe(2, 1, "k/?", false, true).unwrap();
    }
    for value in ["1", "2", "3"] {
        heard_by_one.extend(set(&mut one, "k/a", value).events);
        heard_by_other.extend(set(&mut other, "k/a", value).events);
    }
    heard_by_one.extend(one.delete("k/a", CLIENT).unwrap().1.events);
    heard_by_other.extend(other.delete("k/a", CLIENT).unwrap().1.events);
    assert_eq!(heard_by_one, heard_by_other);
    assert_eq!(one.export(), other.export());

    let of_first: Vec<&Delivery> = heard_by_one
        .iter()
        .filter(|d| d.subscription == SubscriptionId::new(1, 1))
        .collect();
    assert_eq!(
        vec![
            &value_event(1, 1, "k/a", "1"),
            &value_event(1, 1, "k/a", "2"),
            &value_event(1, 1, "k/a", "3"),
            &deleted_event(1, 1, "k/a"),
        ],
        of_first
    );
}

#[test]
fn a_handshake_request_registers_what_the_client_leaves() {
    let mut wb = Worterbuch::new();
    let reply = wb.process(WbFunction::Handshake(
        7,
        vec![ProtocolVersion { major: 0, minor: 6 }],
        vec![kv("will", "1")],
        vec!["goods/#".to_owned()],
    ));
    assert_eq!(
        Ok(WbAnswer::Agreed(Handshake {
            protocol_version: ProtocolVersion { major: 0, minor: 6 },
            separator: '/',
            wildcard: '?',
            multi_wildcard: '#',
        })),
        reply.answer
    );
    set(&mut wb, "goods/a", "1");
    wb.process(WbFunction::Disconnected(7));
    assert_eq!(vec![kv("will", "1")], wb.export());
    assert_eq!(
        Err(WorterbuchError::ProtocolNegotiationFailed),
        wb.process(WbFunction::Handshake(8, vec![], vec![], vec![]))
            .answer
    );
}
