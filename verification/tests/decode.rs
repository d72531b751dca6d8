use worterbuch::codec::{
    encode_ack_message, encode_err_message, encode_handshake_message, encode_message,
    encode_pstate_message, encode_state_message, Ack, ClientMessage, ErrorReply, Export, Get,
    Handshake, Import, KeyValuePair, PGet, PState, PSubscribe, ProtocolVersion, ServerMessage,
    SetValue, State, Subscribe, Unsubscribe,
};
use worterbuch::decode::{
    copy_field, decode_client_message, decode_server_message, read_number, read_text, DecodeError,
};

fn client_messages() -> Vec<ClientMessage> {
    vec![
        ClientMessage::Get(Get {
            transaction_id: 4,
            key: "trolo".to_owned(),
        }),
        ClientMessage::PGet(PGet {
            transaction_id: u64::MAX,
            request_pattern: "a/?/#".to_owned(),
        }),
        ClientMessage::SetValue(SetValue {
            transaction_id: 0,
            key: "yo/mama".to_owned(),
            value: "fät".to_owned(),
        }),
        ClientMessage::SetValue(SetValue {
            transaction_id: 1,
            key: "k".to_owned(),
            value: "".to_owned(),
        }),
        ClientMessage::Subscribe(Subscribe {
            transaction_id: 5536684732567,
            key: "let/me/?/you/its/features".to_owned(),
            unique: true,
        }),
        ClientMessage::PSubscribe(PSubscribe {
            transaction_id: 7,
            request_pattern: "".to_owned(),
            unique: false,
        }),
        ClientMessage::Export(Export {
            transaction_id: 42,
            path: "/path/to/file".to_owned(),
        }),
        ClientMessage::Import(Import {
            transaction_id: 42,
            path: "/path/to/file".to_owned(),
        }),
        ClientMessage::Unsubscribe(Unsubscribe { transaction_id: 42 }),
    ]
}

#[test]
fn every_client_message_is_read_back() {
    for msg in client_messages() {
        let bytes = encode_message(&msg).unwrap();
        assert_eq!(Ok((msg.clone(), bytes.len())), decode_client_message(&bytes));
        let mut longer = bytes.clone();
        longer.extend_from_slice(&[1, 2, 3]);
        assert_eq!(Ok((msg, bytes.len())), decode_client_message(&longer));
    }
}

#[test]
fn a_frame_that_is_cut_short_is_incomplete() {
    for msg in client_messages() {
        let bytes = encode_message(&msg).unwrap();
        for n in 0..bytes.len() {
            assert_eq!(
                Err(DecodeError::Incomplete),
                decode_client_message(&bytes[..n])
            );
        }
    }
}

#[test]
fn every_server_message_is_read_back() {
    let pstate = PState {
        transaction_id: u64::MAX,
        request_pattern: "who/let/the/?/#".to_owned(),
        key_value_pairs: vec![
            KeyValuePair::of("who/let/the/chicken/cross/the/road", "yeah, that was me, I guess"),
            KeyValuePair::of("who/let/the/dogs/out", "Who? Who? Who? Who? Who?"),
            KeyValuePair::of("ö", ""),
        ],
    };
    let bytes = encode_pstate_message(&pstate).unwrap();
    assert_eq!(
        Ok((ServerMessage::PState(pstate), bytes.len())),
        decode_server_message(&bytes)
    );
    for n in 0..bytes.len() {
        assert_eq!(
            Err(DecodeError::Incomplete),
            decode_server_message(&bytes[..n])
        );
    }

    let empty = PState {
        transaction_id: 1,
        request_pattern: "#".to_owned(),
        key_value_pairs: vec![],
    };
    let bytes = encode_pstate_message(&empty).unwrap();
    assert_eq!(
        Ok((ServerMessage::PState(empty), bytes.len())),
        decode_server_message(&bytes)
    );

    let ack = Ack { transaction_id: 42 };
    let bytes = encode_ack_message(&ack).unwrap();
    assert_eq!(Ok((ServerMessage::Ack(ack), 9)), decode_server_message(&bytes));

    let state = State {
        transaction_id: 42,
        key_value: KeyValuePair::of("1/2/3", "4"),
    };
    let bytes = encode_state_message(&state).unwrap();
    assert_eq!(
        Ok((ServerMessage::State(state), bytes.len())),
        decode_server_message(&bytes)
    );

    let err = ErrorReply {
        transaction_id: 42,
        error_code: 5,
        metadata: "THIS IS METAAA!!!".to_owned(),
    };
    let bytes = encode_err_message(&err).unwrap();
    assert_eq!(
        Ok((ServerMessage::ErrorReply(err), bytes.len())),
        decode_server_message(&bytes)
    );

    let handshake = Handshake {
        supported_protocol_versions: vec![
            ProtocolVersion { major: 1, minor: 0 },
            ProtocolVersion {
                major: 513,
                minor: 65535,
            },
        ],
        separator: '/',
        wildcard: '?',
        multi_wildcard: '\u{e4}',
    };
    let bytes = encode_handshake_message(&handshake).unwrap();
    assert_eq!(
        Ok((ServerMessage::Handshake(handshake), bytes.len())),
        decode_server_message(&bytes)
    );
}

#[test]
fn a_handshake_with_a_wide_character_is_not_read_back() {
    let handshake = Handshake {
        supported_protocol_versions: vec![],
        separator: '\u{142}',
        wildcard: '?',
        multi_wildcard: '#',
    };
    let bytes = encode_handshake_message(&handshake).unwrap();
    let (read, _) = decode_server_message(&bytes).unwrap();
    assert_ne!(ServerMessage::Handshake(handshake), read);
}

#[test]
fn an_unknown_type_and_bad_text_are_refused() {
    assert_eq!(
        Err(DecodeError::UndefinedType(0x80)),
        decode_client_message(&[0x80, 0, 0])
    );
    assert_eq!(
        Err(DecodeError::UndefinedType(0x00)),
        decode_server_message(&[0x00, 0, 0])
    );
    assert_eq!(
        Err(DecodeError::UndefinedType(0x42)),
        decode_server_message(&[0x42])
    );
    assert_eq!(Err(DecodeError::Incomplete), decode_client_message(&[]));
    let bad = [0u8, 0, 0, 0, 0, 0, 0, 0, 1, 0, 2, 0xc3, 0x28];
    assert_eq!(Err(DecodeError::InvalidUtf8), decode_client_message(&bad));
    let bad_value = [1u8, 0, 0, 0, 0, 0, 0, 0, 1, 0, 1, 0, 0, 0, 1, b'k', 0xff];
    assert_eq!(Err(DecodeError::InvalidUtf8), decode_client_message(&bad_value));
    // the flag of a subscription is set by any byte but zero
    let flagged = [2u8, 0, 0, 0, 0, 0, 0, 0, 1, 0, 1, b'k', 7];
    assert_eq!(
        Ok((
            ClientMessage::Subscribe(Subscribe {
                transaction_id: 1,
                key: "k".to_owned(),
                unique: true
            }),
            13
        )),
        decode_client_message(&flagged)
    );
}

#[test]
fn numbers_are_big_endian() {
    let bytes = [0u8, 1, 2, 3, 4, 5, 6, 7, 8, 9];
    assert_eq!(0x0102, read_number(&bytes, 1, 2));
    assert_eq!(0x02030405, read_number(&bytes, 2, 4));
    assert_eq!(0x0203040506070809, read_number(&bytes, 2, 8));
    assert_eq!(0, read_number(&bytes, 2, 0));
    assert_eq!(vec![3, 4, 5], copy_field(&bytes, 3, 3));
    assert_eq!(Ok("ab".to_owned()), read_text(b"xaby", 1, 2));
}
