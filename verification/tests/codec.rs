use worterbuch::codec::{
    encode_ack_message, encode_err_message, encode_export_message, encode_get_message,
    encode_handshake_message, encode_import_message, encode_message, encode_pget_message,
    encode_pstate_message, encode_psubscribe_message, encode_set_message, encode_state_message,
    encode_subscribe_message, encode_unsubscribe_message, Ack, ClientMessage, ErrorReply, Export,
    Get, Handshake, Import, KeyValuePair, PGet, PState, PSubscribe, ProtocolVersion,
    ServerMessage, SetValue, State, Subscribe, Unsubscribe, ACK, ERR, EXP, GET, HSHK, IMP, PGET,
    PSTA, PSUB, SET, STA, SUB, USUB,
};
use worterbuch::error::EncodeError;

#[test]
fn lib_get_message_is_encoded_correctly() {
    let msg = Get {
        transaction_id: 4,
        key: "trolo".to_owned(),
    };

    let data = vec![
        GET, 0b00000000, 0b00000000, 0b00000000, 0b00000000, 0b00000000, 0b00000000,
        0b00000000, 0b00000100, 0b00000000, 0b00000101, b't', b'r', b'o', b'l', b'o',
    ];

    assert_eq!(data, encode_get_message(&msg).unwrap());
}

#[test]
fn pget_message_is_encoded_correctly() {
    let msg = PGet {
        transaction_id: 4,
        request_pattern: "trolo".to_owned(),
    };

    let data = vec![
        PGET, 0b00000000, 0b00000000, 0b00000000, 0b00000000, 0b00000000, 0b00000000,
        0b00000000, 0b00000100, 0b00000000, 0b00000101, b't', b'r', b'o', b'l', b'o',
    ];

    assert_eq!(data, encode_pget_message(&msg).unwrap());
}

#[test]
fn lib_set_message_is_encoded_correctly() {
    let msg = SetValue {
        transaction_id: 0,
        key: "yo/mama".to_owned(),
        value: "fat".to_owned(),
    };

    let data = vec![
        SET, 0b00000000, 0b00000000, 0b00000000, 0b00000000, 0b00000000, 0b00000000,
        0b00000000, 0b00000000, 0b00000000, 0b00000111, 0b00000000, 0b00000000, 0b00000000,
        0b00000011, b'y', b'o', b'/', b'm', b'a', b'm', b'a', b'f', b'a', b't',
    ];

    assert_eq!(data, encode_set_message(&msg).unwrap());
}

#[test]
fn lib_subscribe_message_is_encoded_correctly() {
    let msg = Subscribe {
        transaction_id: 5536684732567,
        key: "let/me/?/you/its/features".to_owned(),
        unique: true,
    };

    let data = vec![
        SUB, 0b00000000, 0b00000000, 0b00000101, 0b00001001, 0b00011100, 0b00100000,
        0b01110000, 0b10010111, 0b00000000, 0b00011001, b'l', b'e', b't', b'/', b'm', b'e',
        b'/', b'?', b'/', b'y', b'o', b'u', b'/', b'i', b't', b's', b'/', b'f', b'e', b'a',
        b't', b'u', b'r', b'e', b's', 0b00000001,
    ];

    assert_eq!(data, encode_subscribe_message(&msg).unwrap());
}

#[test]
fn psubscribe_message_is_encoded_correctly() {
    let msg = PSubscribe {
        transaction_id: 5536684732567,
        request_pattern: "let/me/?/you/its/features".to_owned(),
        unique: false,
    };

    let data = vec![
        PSUB, 0b00000000, 0b00000000, 0b00000101, 0b00001001, 0b00011100, 0b00100000,
        0b01110000, 0b10010111, 0b00000000, 0b00011001, b'l', b'e', b't', b'/', b'm', b'e',
        b'/', b'?', b'/', b'y', b'o', b'u', b'/', b'i', b't', b's', b'/', b'f', b'e', b'a',
        b't', b'u', b'r', b'e', b's', 0b00000000,
    ];

    assert_eq!(data, encode_psubscribe_message(&msg).unwrap());
}

#[test]
fn handshake_message_is_encoded_correctly() {
    let msg = Handshake {
        supported_protocol_versions: vec![
            ProtocolVersion { major: 1, minor: 0 },
            ProtocolVersion { major: 1, minor: 1 },
            ProtocolVersion { major: 1, minor: 2 },
        ],
        separator: '/',
        wildcard: '?',
        multi_wildcard: '#',
    };

    let data = vec![
        HSHK, 0b00000011, 0b00000000, 0b00000001, 0b00000000, 0b00000000, 0b00000000,
        0b00000001, 0b00000000, 0b00000001, 0b00000000, 0b00000001, 0b00000000, 0b00000010,
        b'/', b'?', b'#',
    ];

    assert_eq!(data, encode_handshake_message(&msg).unwrap());
}

#[test]
fn pstate_message_is_encoded_correctly() {
    let msg = PState {
        transaction_id: u64::MAX,
        request_pattern: "who/let/the/?/#".to_owned(),
        key_value_pairs: vec![
            (
                "who/let/the/chicken/cross/the/road".to_owned(),
                "yeah, that was me, I guess".to_owned(),
            )
                .into(),
            (
                "who/let/the/dogs/out".to_owned(),
                "Who? Who? Who? Who? Who?".to_owned(),
            )
                .into(),
        ],
    };

    let data = vec![
        PSTA, 0b11111111, 0b11111111, 0b11111111, 0b11111111, 0b11111111, 0b11111111,
        0b11111111, 0b11111111, 0b00000000, 0b00001111, 0b00000000, 0b00000000, 0b00000000,
        0b00000010, 0b00000000, 0b00100010, 0b00000000, 0b00000000, 0b00000000, 0b00011010,
        0b00000000, 0b00010100, 0b00000000, 0b00000000, 0b00000000, 0b00011000, b'w', b'h',
        b'o', b'/', b'l', b'e', b't', b'/', b't', b'h', b'e', b'/', b'?', b'/', b'#', b'w',
        b'h', b'o', b'/', b'l', b'e', b't', b'/', b't', b'h', b'e', b'/', b'c', b'h', b'i',
        b'c', b'k', b'e', b'n', b'/', b'c', b'r', b'o', b's', b's', b'/', b't', b'h', b'e',
        b'/', b'r', b'o', b'a', b'd', b'y', b'e', b'a', b'h', b',', b' ', b't', b'h', b'a',
        b't', b' ', b'w', b'a', b's', b' ', b'm', b'e', b',', b' ', b'I', b' ', b'g', b'u',
        b'e', b's', b's', b'w', b'h', b'o', b'/', b'l', b'e', b't', b'/', b't', b'h', b'e',
        b'/', b'd', b'o', b'g', b's', b'/', b'o', b'u', b't', b'W', b'h', b'o', b'?', b' ',
        b'W', b'h', b'o', b'?', b' ', b'W', b'h', b'o', b'?', b' ', b'W', b'h', b'o', b'?',
        b' ', b'W', b'h', b'o', b'?',
    ];

    assert_eq!(data, encode_pstate_message(&msg).unwrap());
}

#[test]
fn lib_ack_message_is_encoded_correctly() {
    let msg = Ack { transaction_id: 42 };

    let data = vec![
        ACK, 0b00000000, 0b00000000, 0b00000000, 0b00000000, 0b00000000, 0b00000000,
        0b00000000, 0b00101010,
    ];

    assert_eq!(data, encode_ack_message(&msg).unwrap());
}

#[test]
fn lib_state_message_is_encoded_correctly() {
    let msg = State {
        transaction_id: 42,
        key_value: KeyValuePair::of("1/2/3", "4"),
    };

    let data = vec![
        STA, 0b00000000, 0b00000000, 0b00000000, 0b00000000, 0b00000000, 0b00000000,
        0b00000000, 0b00101010, 0b00000000, 0b00000101, 0b00000000, 0b00000000, 0b00000000,
        0b00000001, b'1', b'/', b'2', b'/', b'3', b'4',
    ];

    assert_eq!(data, encode_state_message(&msg).unwrap());
}

#[test]
fn empty_state_message_is_encoded_correctly() {
    let msg = State {
        transaction_id: 42,
        key_value: KeyValuePair::of("1/2/3", ""),
    };

    let data = vec![
        STA, 0b00000000, 0b00000000, 0b00000000, 0b00000000, 0b00000000, 0b00000000,
        0b00000000, 0b00101010, 0b00000000, 0b00000101, 0b00000000, 0b00000000, 0b00000000,
        0b00000000, b'1', b'/', b'2', b'/', b'3',
    ];

    assert_eq!(data, encode_state_message(&msg).unwrap());
}

#[test]
fn lib_err_message_is_encoded_correctly() {
    let msg = ErrorReply {
        transaction_id: 42,
        error_code: 5,
        metadata: "THIS IS METAAA!!!".to_owned(),
    };

    let data = vec![
        ERR, 0b00000000, 0b00000000, 0b00000000, 0b00000000, 0b00000000, 0b00000000,
        0b00000000, 0b00101010, 0b00000101, 0b00000000, 0b00000000, 0b00000000, 0b00010001,
        b'T', b'H', b'I', b'S', b' ', b'I', b'S', b' ', b'M', b'E', b'T', b'A', b'A', b'A',
        b'!', b'!', b'!',
    ];

    assert_eq!(data, encode_err_message(&msg).unwrap());
}

#[test]
fn export_message_is_encoded_correctly() {
    let msg = Export {
        transaction_id: 42,
        path: "/path/to/file".to_owned(),
    };

    let data = vec![
        EXP, 0b00000000, 0b00000000, 0b00000000, 0b00000000, 0b00000000, 0b00000000,
        0b00000000, 0b00101010, 0b00000000, 0b00001101, b'/', b'p', b'a', b't', b'h', b'/',
        b't', b'o', b'/', b'f', b'i', b'l', b'e',
    ];

    assert_eq!(data, encode_export_message(&msg).unwrap());
}

#[test]
fn import_message_is_encoded_correctly() {
    let msg = Import {
        transaction_id: 42,
        path: "/path/to/file".to_owned(),
    };

    let data = vec![
        IMP, 0b00000000, 0b00000000, 0b00000000, 0b00000000, 0b00000000, 0b00000000,
        0b00000000, 0b00101010, 0b00000000, 0b00001101, b'/', b'p', b'a', b't', b'h', b'/',
        b't', b'o', b'/', b'f', b'i', b'l', b'e',
    ];

    assert_eq!(data, encode_import_message(&msg).unwrap());
}

#[test]
fn unsubscribe_message_is_encoded_correctly() {
    let msg = Unsubscribe { transaction_id: 42 };

    let data = vec![
        USUB, 0b00000000, 0b00000000, 0b00000000, 0b00000000, 0b00000000, 0b00000000,
        0b00000000, 0b00101010,
    ];

    assert_eq!(data, encode_unsubscribe_message(&msg).unwrap());
}

#[test]
fn key_of_65536_bytes_is_too_long() {
    let msg = Get {
        transaction_id: 1,
        key: "k".repeat(65536),
    };
    assert_eq!(Err(EncodeError::KeyTooLong(65536)), encode_get_message(&msg));

    let msg = Get {
        transaction_id: 1,
        key: "k".repeat(65535),
    };
    assert_eq!(11 + 65535, encode_get_message(&msg).unwrap().len());
}

#[test]
fn key_length_counts_bytes_not_characters() {
    let msg = Get {
        transaction_id: 1,
        key: "ä".to_owned(),
    };
    let data = vec![GET, 0, 0, 0, 0, 0, 0, 0, 1, 0, 2, 0xc3, 0xa4];
    assert_eq!(data, encode_get_message(&msg).unwrap());
}

#[test]
fn pattern_and_path_length_errors_name_the_field() {
    let msg = PGet {
        transaction_id: 1,
        request_pattern: "p".repeat(70000),
    };
    assert_eq!(
        Err(EncodeError::RequestPatternTooLong(70000)),
        encode_pget_message(&msg)
    );

    let msg = PSubscribe {
        transaction_id: 1,
        request_pattern: "p".repeat(70000),
        unique: true,
    };
    assert_eq!(
        Err(EncodeError::RequestPatternTooLong(70000)),
        encode_psubscribe_message(&msg)
    );

    let msg = Export {
        transaction_id: 1,
        path: "p".repeat(65536),
    };
    assert_eq!(Err(EncodeError::PathTooLong(65536)), encode_export_message(&msg));

    let msg = Import {
        transaction_id: 1,
        path: "p".repeat(65536),
    };
    assert_eq!(Err(EncodeError::PathTooLong(65536)), encode_import_message(&msg));
}

#[test]
fn set_reports_the_key_before_the_value() {
    let msg = SetValue {
        transaction_id: 1,
        key: "k".repeat(65536),
        value: "v".to_owned(),
    };
    assert_eq!(Err(EncodeError::KeyTooLong(65536)), encode_set_message(&msg));
}

#[test]
fn pstate_reports_the_first_pair_that_does_not_fit() {
    let msg = PState {
        transaction_id: 1,
        request_pattern: "#".to_owned(),
        key_value_pairs: vec![
            KeyValuePair::of("a", "1"),
            KeyValuePair::of(&"b".repeat(65537), "2"),
            KeyValuePair::of(&"c".repeat(65538), "3"),
        ],
    };
    assert_eq!(Err(EncodeError::KeyTooLong(65537)), encode_pstate_message(&msg));
}

#[test]
fn handshake_with_256_versions_is_refused() {
    let msg = Handshake {
        supported_protocol_versions: vec![ProtocolVersion { major: 1, minor: 0 }; 256],
        separator: '/',
        wildcard: '?',
        multi_wildcard: '#',
    };
    assert_eq!(
        Err(EncodeError::TooManyProtocolVersions(256)),
        encode_handshake_message(&msg)
    );
}

#[test]
fn handshake_writes_the_low_byte_of_each_character() {
    let msg = Handshake {
        supported_protocol_versions: vec![],
        separator: '\u{142}',
        wildcard: '?',
        multi_wildcard: '#',
    };
    assert_eq!(
        vec![HSHK, 0, 0x42, b'?', b'#'],
        encode_handshake_message(&msg).unwrap()
    );
}

#[test]
fn encode_message_picks_the_encoder_of_the_variant() {
    let get = Get {
        transaction_id: 7,
        key: "a/b".to_owned(),
    };
    assert_eq!(
        encode_get_message(&get),
        encode_message(&ClientMessage::Get(get.clone()))
    );
    let usub = Unsubscribe { transaction_id: 9 };
    assert_eq!(
        encode_unsubscribe_message(&usub),
        encode_message(&ClientMessage::Unsubscribe(usub))
    );
    let sub = Subscribe {
        transaction_id: 3,
        key: "a".to_owned(),
        unique: false,
    };
    assert_eq!(
        encode_subscribe_message(&sub),
        encode_message(&ClientMessage::Subscribe(sub.clone()))
    );
}

#[test]
fn transaction_id_of_each_message() {
    assert_eq!(
        5,
        ClientMessage::Get(Get {
            transaction_id: 5,
            key: "a".to_owned()
        })
        .transaction_id()
    );
    assert_eq!(
        6,
        ClientMessage::Unsubscribe(Unsubscribe { transaction_id: 6 }).transaction_id()
    );
    assert_eq!(8, ServerMessage::Ack(Ack { transaction_id: 8 }).transaction_id());
    assert_eq!(
        9,
        ServerMessage::ErrorReply(ErrorReply {
            transaction_id: 9,
            error_code: ERR,
            metadata: String::new()
        })
        .transaction_id()
    );
    assert_eq!(
        0,
        ServerMessage::Handshake(Handshake {
            supported_protocol_versions: vec![],
            separator: '/',
            wildcard: '?',
            multi_wildcard: '#',
        })
        .transaction_id()
    );
    assert_eq!(
        4,
        ServerMessage::State(State {
            transaction_id: 4,
            key_value: KeyValuePair::from(("k".to_owned(), "v".to_owned())),
        })
        .transaction_id()
    );
    let expected: [u8; 13] = [ACK, EXP, IMP, PGET, PSTA, PSUB, SET, STA, SUB, USUB, GET, HSHK, ERR];
    assert_eq!(
        expected,
        [0x81, 5, 6, 3, 0x80, 4, 1, 0x82, 2, 7, 0, 0x84, 0x83]
    );
}
