use worterbuch::error::EncodeError;
use worterbuch::v0::{
    encode_ack_message, encode_err_message, encode_event_message, encode_get_message,
    encode_set_message, encode_state_message, encode_subscribe_message, Ack, ErrorReply, Event,
    Get, SetValue, State, Subscribe, ACK, ERR, EVE, GET, SET, STA, SUB,
};

#[test]
fn mod_get_message_is_encoded_correctly() {
    let msg = Get {
        transaction_id: 4,
        request_pattern: "trolo".to_owned(),
    };

    let data = vec![
        GET, 0b00000000, 0b00000000, 0b00000000, 0b00000000, 0b00000000, 0b00000000,
        0b00000000, 0b00000100, 0b00000000, 0b00000101, b't', b'r', b'o', b'l', b'o',
    ];

    assert_eq!(data, encode_get_message(&msg).unwrap());
}

#[test]
fn mod_set_message_is_encoded_correctly() {
    let msg = SetValue {
        transaction_id: 0,
        key: "yo/mama".to_owned(),
        value: "fat".to_owned(),
    };

    let data = vec![
        SET, 0b00000000, 0b00000000, 0b00000000, 0b00000000, 0b00000000, 0b00000000,
        0b00000000, 0b00000000, 0b00000000, 0b00000111, 0b00000000, 0b00000000, 0b00000000,
        0b00000011, b'y', b'o', b'/', b'm', b'a', b'm', b'a', b'f', b'a', b't',
    ];

    assert_eq!(data, encode_set_message(&msg).unwrap());
}

#[test]
fn mod_subscribe_message_is_encoded_correctly() {
    let msg = Subscribe {
        transaction_id: 5536684732567,
        request_pattern: "let/me/?/you/its/features".to_owned(),
    };

    let data = vec![
        SUB, 0b00000000, 0b00000000, 0b00000101, 0b00001001, 0b00011100, 0b00100000,
        0b01110000, 0b10010111, 0b00000000, 0b00011001, b'l', b'e', b't', b'/', b'm', b'e',
        b'/', b'?', b'/', b'y', b'o', b'u', b'/', b'i', b't', b's', b'/', b'f', b'e', b'a',
        b't', b'u', b'r', b'e', b's',
    ];

    assert_eq!(data, encode_subscribe_message(&msg).unwrap());
}

#[test]
fn mod_state_message_is_encoded_correctly() {
    let msg = State {
        transaction_id: u64::MAX,
        request_pattern: "who/let/the/?/#".to_owned(),
        key_value_pairs: vec![
            (
                "who/let/the/chicken/cross/the/road".to_owned(),
                "yeah, that was me, I guess".to_owned(),
            ),
            (
                "who/let/the/dogs/out".to_owned(),
                "Who? Who? Who? Who? Who?".to_owned(),
            ),
        ],
    };

    let data = vec![
        STA, 0b11111111, 0b11111111, 0b11111111, 0b11111111, 0b11111111, 0b11111111,
        0b11111111, 0b11111111, 0b00000000, 0b00001111, 0b00000000, 0b00000000, 0b00000000,
        0b00000010, 0b00000000, 0b00100010, 0b00000000, 0b00000000, 0b00000000, 0b00011010,
        0b00000000, 0b00010100, 0b00000000, 0b00000000, 0b00000000, 0b00011000, b'w', b'h',
        b'o', b'/', b'l', b'e', b't', b'/', b't', b'h', b'e', b'/', b'?', b'/', b'#', b'w',
        b'h', b'o', b'/', b'l', b'e', b't', b'/', b't', b'h', b'e', b'/', b'c', b'h', b'i',
        b'c', b'k', b'e', b'n', b'/', b'c', b'r', b'o', b's', b's', b'/', b't', b'h', b'e',
        b'/', b'r', b'o', b'a', b'd', b'y', b'e', b'a', b'h', b',', b' ', b't', b'h', b'a',
        b't', b' ', b'w', b'a', b's', b' ', b'm', b'e', b',', b' ', b'I', b' ', b'g', b'u',
        b'e', b's', b's', b'w', b'h', b'o', b'/', b'l', b'e', b't', b'/', b't', b'h', b'e',
        b'/', b'd', b'o', b'g', b's', b'/', b'o', b'u', b't', b'W', b'h', b'o', b'?', b' ',
        b'W', b'h', b'o', b'?', b' ', b'W', b'h', b'o', b'?', b' ', b'W', b'h', b'o', b'?',
        b' ', b'W', b'h', b'o', b'?',
    ];

    assert_eq!(data, encode_state_message(&msg).unwrap());
}

#[test]
fn mod_ack_message_is_encoded_correctly() {
    let msg = Ack { transaction_id: 42 };

    let data = vec![
        ACK, 0b00000000, 0b00000000, 0b00000000, 0b00000000, 0b00000000, 0b00000000,
        0b00000000, 0b00101010,
    ];

    assert_eq!(data, encode_ack_message(&msg).unwrap());
}

#[test]
fn event_message_is_encoded_correctly() {
    let msg = Event {
        transaction_id: 42,
        request_pattern: "1/2/3".to_owned(),
        key: "1/2/3".to_owned(),
        value: "4".to_owned(),
    };

    let data = vec![
        EVE, 0b00000000, 0b00000000, 0b00000000, 0b00000000, 0b00000000, 0b00000000,
        0b00000000, 0b00101010, 0b00000000, 0b00000101, 0b00000000, 0b00000101, 0b00000000,
        0b00000000, 0b00000000, 0b00000001, b'1', b'/', b'2', b'/', b'3', b'1', b'/', b'2',
        b'/', b'3', b'4',
    ];

    assert_eq!(data, encode_event_message(&msg).unwrap());
}

#[test]
fn mod_err_message_is_encoded_correctly() {
    let msg = ErrorReply {
        transaction_id: 42,
        error_code: 5,
        metadata: "THIS IS METAAA!!!".to_owned(),
    };

    let data = vec![
        ERR, 0b00000000, 0b00000000, 0b00000000, 0b00000000, 0b00000000, 0b00000000,
        0b00000000, 0b00101010, 0b00000101, 0b00000000, 0b00000000, 0b00000000, 0b00010001,
        b'T', b'H', b'I', b'S', b' ', b'I', b'S', b' ', b'M', b'E', b'T', b'A', b'A', b'A',
        b'!', b'!', b'!',
    ];

    assert_eq!(data, encode_err_message(&msg).unwrap());
}

#[test]
fn v0_length_errors_name_the_field() {
    let msg = Get {
        transaction_id: 1,
        request_pattern: "p".repeat(65536),
    };
    assert_eq!(
        Err(EncodeError::RequestPatternTooLong(65536)),
        encode_get_message(&msg)
    );

    let msg = Event {
        transaction_id: 1,
        request_pattern: "p".to_owned(),
        key: "k".repeat(65536),
        value: "v".to_owned(),
    };
    assert_eq!(Err(EncodeError::KeyTooLong(65536)), encode_event_message(&msg));

    let msg = State {
        transaction_id: 1,
        request_pattern: "p".to_owned(),
        key_value_pairs: vec![
            ("a".to_owned(), "1".to_owned()),
            ("k".repeat(65540), "2".to_owned()),
        ],
    };
    assert_eq!(Err(EncodeError::KeyTooLong(65540)), encode_state_message(&msg));
}
