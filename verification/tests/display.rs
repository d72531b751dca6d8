use worterbuch::codec;
use worterbuch::codec::{KeyValuePair, ProtocolVersion};
use worterbuch::display::{
    deleted_to_text, handshake_start_text, pair_to_text, pairs_to_text, version_to_text,
};
use worterbuch::server;
use worterbuch::server::{PStateEvent, StateEvent};

#[test]
fn a_pair_reads_key_equals_value() {
    assert_eq!("a/b=\"1\"", pair_to_text(&KeyValuePair::of("a/b", "\"1\"")));
    assert_eq!("=", pair_to_text(&KeyValuePair::of("", "")));
}

#[test]
fn a_version_reads_major_dot_minor() {
    assert_eq!("0.6", version_to_text(&ProtocolVersion { major: 0, minor: 6 }));
    assert_eq!(
        "65535.10",
        version_to_text(&ProtocolVersion {
            major: 65535,
            minor: 10
        })
    );
}

#[test]
fn pairs_stand_one_on_each_line() {
    assert_eq!("", pairs_to_text(&vec![]));
    assert_eq!("a=1", pairs_to_text(&vec![KeyValuePair::of("a", "1")]));
    assert_eq!(
        "a=1\nb/c=2\nd=3",
        pairs_to_text(&vec![
            KeyValuePair::of("a", "1"),
            KeyValuePair::of("b/c", "2"),
            KeyValuePair::of("d", "3"),
        ])
    );
}

#[test]
fn deleted_keys_stand_one_on_each_line() {
    assert_eq!("", deleted_to_text(&vec![]));
    assert_eq!(
        "a deleted\nb/c deleted",
        deleted_to_text(&vec!["a".to_owned(), "b/c".to_owned()])
    );
}

#[test]
fn the_start_of_a_handshake_names_the_three_characters() {
    assert_eq!(
        "handshake: separator: '/', wildcard: '?', multi-wildcard: '#', supported protocol versions: ",
        handshake_start_text('/', '?', '#')
    );
}

#[test]
fn binary_messages_as_text() {
    let pstate = codec::PState {
        transaction_id: 1,
        request_pattern: "a/?".to_owned(),
        key_value_pairs: vec![KeyValuePair::of("a/b", "1"), KeyValuePair::of("a/c", "2")],
    };
    assert_eq!("a/b=1\na/c=2", pstate.to_text());

    assert_eq!("ack 42", codec::Ack { transaction_id: 42 }.to_text());
    assert_eq!("ack 0", codec::Ack { transaction_id: 0 }.to_text());
    assert_eq!(
        "ack 18446744073709551615",
        codec::Ack {
            transaction_id: u64::MAX
        }
        .to_text()
    );

    let state = codec::State {
        transaction_id: 7,
        key_value: KeyValuePair::of("x", "true"),
    };
    assert_eq!("x=true", state.to_text());

    let error = codec::ErrorReply {
        transaction_id: 7,
        error_code: 5,
        metadata: "no such value".to_owned(),
    };
    assert_eq!("server error 5: no such value", error.to_text());

    let handshake = codec::Handshake {
        supported_protocol_versions: vec![
            ProtocolVersion { major: 1, minor: 0 },
            ProtocolVersion { major: 1, minor: 1 },
            ProtocolVersion { major: 2, minor: 12 },
        ],
        separator: '/',
        wildcard: '?',
        multi_wildcard: '#',
    };
    assert_eq!(
        "handshake: separator: '/', wildcard: '?', multi-wildcard: '#', supported protocol versions: 1.0, 1.1, 2.12",
        handshake.to_text()
    );

    let bare = codec::Handshake {
        supported_protocol_versions: vec![],
        separator: '.',
        wildcard: '*',
        multi_wildcard: '>',
    };
    assert_eq!(
        "handshake: separator: '.', wildcard: '*', multi-wildcard: '>', supported protocol versions: ",
        bare.to_text()
    );
}

#[test]
fn json_messages_as_text() {
    let values = server::PState {
        transaction_id: 1,
        request_pattern: "#".to_owned(),
        event: PStateEvent::KeyValuePairs(vec![
            KeyValuePair::of("a", "1"),
            KeyValuePair::of("b", "2"),
        ]),
    };
    assert_eq!("a=1\nb=2", values.to_text());

    let deleted = server::PState {
        transaction_id: 1,
        request_pattern: "#".to_owned(),
        event: PStateEvent::Deleted(vec!["a".to_owned(), "b".to_owned()]),
    };
    assert_eq!("a deleted\nb deleted", deleted.to_text());

    assert_eq!("ack 9", server::Ack { transaction_id: 9 }.to_text());

    let state = server::State {
        transaction_id: 3,
        event: StateEvent::KeyValue(KeyValuePair::of("k", "[1,2]")),
    };
    assert_eq!("k=[1,2]", state.to_text());

    let gone = server::State {
        transaction_id: 3,
        event: StateEvent::Deleted("k".to_owned()),
    };
    assert_eq!("k deleted", gone.to_text());

    let handshake = server::Handshake {
        protocol_version: ProtocolVersion { major: 0, minor: 6 },
        separator: '/',
        wildcard: '?',
        multi_wildcard: '#',
    };
    assert_eq!(
        "handshake: separator: '/', wildcard: '?', multi-wildcard: '#', supported protocol versions: 0.6",
        handshake.to_text()
    );
}
