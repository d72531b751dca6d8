use worterbuch::binary::{
    binary_event, binary_reply, binary_request, binary_state, binary_states, opening_frame,
    read_next, Reading,
};
use worterbuch::codec::{
    encode_ack_message, encode_err_message, encode_get_message, encode_pstate_message,
    encode_state_message, Ack, ClientMessage, ErrorReply, Export, Get, Import, KeyValuePair, PGet,
    PState, PSubscribe, ProtocolVersion, SetValue, State, Subscribe, Unsubscribe,
};
use worterbuch::error::WorterbuchError;
use worterbuch::server::PStateEvent;
use worterbuch::subscribers::SubscriptionId;
use worterbuch::worterbuch::{WbAnswer, WbFunction};

const CLIENT: u128 = 0x0123456789abcdef0123456789abcdef;
const NAME: &str = "01234567-89ab-cdef-0123-456789abcdef";

fn get(key: &str) -> ClientMessage {
    ClientMessage::Get(Get {
        transaction_id: 3,
        key: key.to_owned(),
    })
}

#[test]
fn the_next_message_is_read_or_waited_for_or_the_connection_ends() {
    let frame = encode_get_message(&Get {
        transaction_id: 3,
        key: "a/b".to_owned(),
    })
    .unwrap();
    let mut bytes = frame.clone();
    bytes.extend_from_slice(&[0x01, 0x02]);
    assert_eq!(Reading::Message(get("a/b"), frame.len()), read_next(&bytes));
    assert_eq!(Reading::More, read_next(&frame[..frame.len() - 1]));
    assert_eq!(Reading::More, read_next(&[]));
    assert_eq!(Reading::Close, read_next(&[0x77, 0, 0]));
    let mut garbled = frame.clone();
    let last = garbled.len() - 1;
    garbled[last] = 0xff;
    assert_eq!(Reading::Close, read_next(&garbled));
}

#[test]
fn every_message_stands_for_its_request() {
    assert_eq!(
        Ok(WbFunction::Get("a".to_owned())),
        binary_request(CLIENT, get("a"))
    );
    assert_eq!(
        Ok(WbFunction::PGet("a/#".to_owned())),
        binary_request(
            CLIENT,
            ClientMessage::PGet(PGet {
                transaction_id: 3,
                request_pattern: "a/#".to_owned()
            })
        )
    );
    assert_eq!(
        Ok(WbFunction::SetValue(
            "a".to_owned(),
            "1".to_owned(),
            NAME.to_owned()
        )),
        binary_request(
            CLIENT,
            ClientMessage::SetValue(SetValue {
                transaction_id: 3,
                key: "a".to_owned(),
                value: "1".to_owned()
            })
        )
    );
    assert_eq!(
        Ok(WbFunction::Subscribe(CLIENT, 4, "a".to_owned(), true, false)),
        binary_request(
            CLIENT,
            ClientMessage::Subscribe(Subscribe {
                transaction_id: 4,
                key: "a".to_owned(),
                unique: true
            })
        )
    );
    assert_eq!(
        Ok(WbFunction::PSubscribe(
            CLIENT,
            5,
            "a/?".to_owned(),
            false,
            false
        )),
        binary_request(
            CLIENT,
            ClientMessage::PSubscribe(PSubscribe {
                transaction_id: 5,
                request_pattern: "a/?".to_owned(),
                unique: false
            })
        )
    );
    assert_eq!(
        Ok(WbFunction::Unsubscribe(CLIENT, 5)),
        binary_request(
            CLIENT,
            ClientMessage::Unsubscribe(Unsubscribe { transaction_id: 5 })
        )
    );
    let refused = Err(WorterbuchError::Other(
        "not available over this connection".to_owned(),
        "export and import".to_owned(),
    ));
    assert_eq!(
        refused,
        binary_request(
            CLIENT,
            ClientMessage::Export(Export {
                transaction_id: 6,
                path: "p".to_owned()
            })
        )
    );
    assert_eq!(
        refused,
        binary_request(
            CLIENT,
            ClientMessage::Import(Import {
                transaction_id: 6,
                path: "p".to_owned()
            })
        )
    );
}

#[test]
fn every_answer_has_its_frame() {
    let pair = KeyValuePair::of("a", "1");
    assert_eq!(
        encode_state_message(&State {
            transaction_id: 3,
            key_value: pair.clone()
        })
        .ok(),
        binary_reply(
            &get("a"),
            Ok(WbAnswer::Value("a".to_owned(), "1".to_owned()))
        )
    );
    let pget = ClientMessage::PGet(PGet {
        transaction_id: 8,
        request_pattern: "?".to_owned(),
    });
    assert_eq!(
        encode_pstate_message(&PState {
            transaction_id: 8,
            request_pattern: "?".to_owned(),
            key_value_pairs: vec![pair.clone()]
        })
        .ok(),
        binary_reply(&pget, Ok(WbAnswer::Pairs(vec![pair.clone()])))
    );
    let ack = encode_ack_message(&Ack { transaction_id: 9 }).ok();
    assert!(ack.is_some());
    let set = ClientMessage::SetValue(SetValue {
        transaction_id: 9,
        key: "a".to_owned(),
        value: "1".to_owned(),
    });
    assert_eq!(ack, binary_reply(&set, Ok(WbAnswer::Done)));
    let subscribe = ClientMessage::Subscribe(Subscribe {
        transaction_id: 9,
        key: "a".to_owned(),
        unique: false,
    });
    assert_eq!(
        ack,
        binary_reply(
            &subscribe,
            Ok(WbAnswer::Subscribed(SubscriptionId::new(CLIENT, 9)))
        )
    );
    let unsubscribe = ClientMessage::Unsubscribe(Unsubscribe { transaction_id: 9 });
    assert_eq!(ack, binary_reply(&unsubscribe, Ok(WbAnswer::Done)));
    assert_eq!(None, binary_reply(&get("a"), Ok(WbAnswer::Done)));
    assert_eq!(None, binary_reply(&set, Ok(WbAnswer::Len(1))));
}

#[test]
fn a_refusal_has_its_error_frame() {
    assert_eq!(
        encode_err_message(&ErrorReply {
            transaction_id: 3,
            error_code: 5,
            metadata: "\"no value for key 'a'\"".to_owned()
        })
        .ok(),
        binary_reply(&get("a"), Err(WorterbuchError::NoSuchValue("a".to_owned())))
    );
    assert_eq!(
        encode_err_message(&ErrorReply {
            transaction_id: 3,
            error_code: 0xff,
            metadata: "\"tried to delete read only key '$SYS/a'\"".to_owned()
        })
        .ok(),
        binary_reply(
            &get("a"),
            Err(WorterbuchError::ReadOnlyKey("$SYS/a".to_owned()))
        )
    );
    assert_eq!(
        encode_err_message(&ErrorReply {
            transaction_id: 3,
            error_code: 0xff,
            metadata: "{\"cause\":\"c\",\"meta\":\"m\"}".to_owned()
        })
        .ok(),
        binary_reply(
            &get("a"),
            Err(WorterbuchError::Other("c".to_owned(), "m".to_owned()))
        )
    );
    assert_eq!(
        None,
        binary_reply(
            &get("a"),
            Err(WorterbuchError::InvalidServerResponse("x".to_owned()))
        )
    );
}

#[test]
fn events_have_their_frames() {
    let pairs = vec![KeyValuePair::of("a", "1"), KeyValuePair::of("b", "2")];
    assert_eq!(
        encode_pstate_message(&PState {
            transaction_id: 4,
            request_pattern: "?".to_owned(),
            key_value_pairs: pairs.clone()
        })
        .ok(),
        binary_event(4, "?", PStateEvent::KeyValuePairs(pairs.clone()))
    );
    assert_eq!(
        None,
        binary_event(4, "?", PStateEvent::Deleted(vec!["a".to_owned()]))
    );
    let first = encode_state_message(&State {
        transaction_id: 4,
        key_value: pairs[0].clone(),
    })
    .ok();
    let second = encode_state_message(&State {
        transaction_id: 4,
        key_value: pairs[1].clone(),
    })
    .ok();
    assert!(first.is_some() && first != second);
    assert_eq!(first, binary_state(4, pairs[0].clone()));
    assert_eq!(
        vec![first, second],
        binary_states(4, PStateEvent::KeyValuePairs(pairs))
    );
    assert_eq!(
        Vec::<Option<Vec<u8>>>::new(),
        binary_states(4, PStateEvent::Deleted(vec!["a".to_owned()]))
    );
    let long = KeyValuePair::of(&"k".repeat(70000), "1");
    assert_eq!(None, binary_state(4, long));
}

#[test]
fn a_connection_opens_with_the_handshake_of_the_server() {
    assert_eq!(
        Some(vec![0x84, 0x01, 0x00, 0x00, 0x00, 0x06, b'/', b'?', b'#']),
        opening_frame(ProtocolVersion { major: 0, minor: 6 })
    );
}
