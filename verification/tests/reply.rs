use worterbuch::client::{
    ClientMessage, Delete, Get, HandshakeRequest, Ls, PDelete, PGet, SetValue, Subscribe,
};
use worterbuch::codec::{KeyValuePair, ProtocolVersion};
use worterbuch::error::{AuthorizationError, ErrorCode, Privilege, WorterbuchError};
use worterbuch::reply::{
    assemble, encode_metadata, forward_pstate, forward_state, handle_store_error, metadata_for,
    respond, Metadata,
};
use worterbuch::server::{
    Ack, ErrorReply, Handshake, LsState, PState, PStateEvent, ServerMessage, State, StateEvent,
};
use worterbuch::subscribers::SubscriptionId;
use worterbuch::worterbuch::WbAnswer;

fn metadata(e: WorterbuchError, tid: u64) -> String {
    handle_store_error(&e, tid).unwrap().metadata
}

#[test]
fn the_metadata_of_an_error_is_a_json_string() {
    assert_eq!(
        "\"a/?\"",
        metadata(WorterbuchError::IllegalWildcard("a/?".to_owned()), 1)
    );
    assert_eq!(
        "\"a/#\"",
        metadata(WorterbuchError::IllegalMultiWildcard("a/#".to_owned()), 1)
    );
    assert_eq!(
        "\"#/a\"",
        metadata(
            WorterbuchError::MultiWildcardAtIllegalPosition("#/a".to_owned()),
            1
        )
    );
    assert_eq!(
        "\"no value for key 'say \\\"hi\\\"'\"",
        metadata(WorterbuchError::NoSuchValue("say \"hi\"".to_owned()), 1)
    );
    assert_eq!(
        "\"no subscription found for transaction id '18446744073709551615'\"",
        metadata(WorterbuchError::NotSubscribed, u64::MAX)
    );
    assert_eq!(
        "\"no subscription found for transaction id '0'\"",
        metadata(WorterbuchError::NotSubscribed, 0)
    );
    assert_eq!(
        "\"tried to delete read only key '$SYS/uptime'\"",
        metadata(WorterbuchError::ReadOnlyKey("$SYS/uptime".to_owned()), 1)
    );
    assert_eq!(
        "\"operation write requires authentication\"",
        metadata(WorterbuchError::AuthenticationRequired(Privilege::Write), 1)
    );
    assert_eq!(
        "\"client failed to authenticate\"",
        metadata(WorterbuchError::AuthenticationFailed, 1)
    );
    assert_eq!(
        "\"handshake has already been completed, cannot do it again\"",
        metadata(WorterbuchError::AlreadyAuthenticated, 1)
    );
    assert_eq!(
        "\"server does not implement any of the protocl versions supported by this client\"",
        metadata(WorterbuchError::ProtocolNegotiationFailed, 1)
    );
}

#[test]
fn a_cause_becomes_a_json_object_and_a_refusal_stays_plain() {
    assert_eq!(
        "{\"cause\":\"disk \\\"full\\\"\",\"meta\":\"writing\\nstore\"}",
        metadata(
            WorterbuchError::IoError("disk \"full\"".to_owned(), "writing\nstore".to_owned()),
            1
        )
    );
    assert_eq!(
        "{\"cause\":\"c\",\"meta\":\"m\"}",
        metadata(WorterbuchError::Other("c".to_owned(), "m".to_owned()), 1)
    );
    assert_eq!(
        "Client does not have delete access to 'a/#'",
        metadata(
            WorterbuchError::Unauthorized(AuthorizationError::InsufficientPrivileges(
                Privilege::Delete,
                "a/#".to_owned()
            )),
            1
        )
    );
    assert_eq!(
        Metadata::Cause("c".to_owned(), "m".to_owned()),
        metadata_for(&WorterbuchError::SerDeError("c".to_owned(), "m".to_owned()), 1)
    );
    assert_eq!(
        "{\"cause\":1,\"meta\":2}",
        assemble(&Metadata::Cause("c".to_owned(), "m".to_owned()), "1", "2")
    );
    assert_eq!("1", assemble(&Metadata::Quoted("q".to_owned()), "1", "2"));
    assert_eq!("p", assemble(&Metadata::Plain("p".to_owned()), "1", "2"));
    assert_eq!(
        Some("\"q\"".to_owned()),
        encode_metadata(&Metadata::Quoted("q".to_owned()))
    );
}

#[test]
fn an_error_message_names_the_kind_and_the_transaction() {
    assert_eq!(
        Some(ErrorReply {
            transaction_id: 17,
            error_code: ErrorCode::NoSuchValue,
            metadata: "\"no value for key 'k'\"".to_owned()
        }),
        handle_store_error(&WorterbuchError::NoSuchValue("k".to_owned()), 17)
    );
    assert_eq!(Some(5), ErrorCode::NoSuchValue.number());
    assert_eq!(Some(0xff), ErrorCode::Other.number());
    assert_eq!(None, ErrorCode::ReadOnlyKey.number());
    assert_eq!(
        ErrorCode::Other,
        ErrorCode::from(&WorterbuchError::Other("c".to_owned(), "m".to_owned()))
    );
}

#[test]
fn every_answer_becomes_the_message_for_the_client() {
    let get = ClientMessage::Get(Get {
        transaction_id: 3,
        key: "k".to_owned(),
    });
    assert_eq!(
        Some(ServerMessage::State(State {
            transaction_id: 3,
            event: StateEvent::KeyValue(KeyValuePair::of("k", "1"))
        })),
        respond(&get, Ok(WbAnswer::Value("k".to_owned(), "1".to_owned())))
    );
    assert_eq!(None, respond(&get, Ok(WbAnswer::Done)));
    assert_eq!(
        Some(ServerMessage::ErrorReply(ErrorReply {
            transaction_id: 3,
            error_code: ErrorCode::NoSuchValue,
            metadata: "\"no value for key 'k'\"".to_owned()
        })),
        respond(&get, Err(WorterbuchError::NoSuchValue("k".to_owned())))
    );
    assert_eq!(
        None,
        respond(
            &get,
            Err(WorterbuchError::InvalidServerResponse("?".to_owned()))
        )
    );
    let pget = ClientMessage::PGet(PGet {
        transaction_id: 4,
        request_pattern: "a/?".to_owned(),
    });
    assert_eq!(
        Some(ServerMessage::PState(PState {
            transaction_id: 4,
            request_pattern: "a/?".to_owned(),
            event: PStateEvent::KeyValuePairs(vec![KeyValuePair::of("a/b", "1")])
        })),
        respond(&pget, Ok(WbAnswer::Pairs(vec![KeyValuePair::of("a/b", "1")])))
    );
    let delete = ClientMessage::Delete(Delete {
        transaction_id: 5,
        key: "k".to_owned(),
    });
    assert_eq!(
        Some(ServerMessage::State(State {
            transaction_id: 5,
            event: StateEvent::Deleted("k".to_owned())
        })),
        respond(&delete, Ok(WbAnswer::Deleted(KeyValuePair::of("k", "1"))))
    );
    let pdelete = ClientMessage::PDelete(PDelete {
        transaction_id: 6,
        request_pattern: "a/#".to_owned(),
    });
    assert_eq!(
        Some(ServerMessage::PState(PState {
            transaction_id: 6,
            request_pattern: "a/#".to_owned(),
            event: PStateEvent::Deleted(vec!["a/b".to_owned(), "a/c".to_owned()])
        })),
        respond(
            &pdelete,
            Ok(WbAnswer::Pairs(vec![
                KeyValuePair::of("a/b", "1"),
                KeyValuePair::of("a/c", "2")
            ]))
        )
    );
    let ls = ClientMessage::Ls(Ls {
        transaction_id: 7,
        parent: None,
    });
    assert_eq!(
        Some(ServerMessage::LsState(LsState {
            transaction_id: 7,
            children: vec!["a".to_owned()]
        })),
        respond(&ls, Ok(WbAnswer::Children(vec!["a".to_owned()])))
    );
    let set = ClientMessage::SetValue(SetValue {
        transaction_id: 8,
        key: "k".to_owned(),
        value: "1".to_owned(),
    });
    assert_eq!(
        Some(ServerMessage::Ack(Ack { transaction_id: 8 })),
        respond(&set, Ok(WbAnswer::Done))
    );
    let subscribe = ClientMessage::Subscribe(Subscribe {
        transaction_id: 9,
        key: "k".to_owned(),
        unique: false,
        live_only: None,
    });
    assert_eq!(
        Some(ServerMessage::Ack(Ack { transaction_id: 9 })),
        respond(
            &subscribe,
            Ok(WbAnswer::Subscribed(SubscriptionId::new(1, 9)))
        )
    );
}

#[test]
fn events_are_forwarded_as_states() {
    let event = PStateEvent::KeyValuePairs(vec![
        KeyValuePair::of("a", "1"),
        KeyValuePair::of("b", "2"),
    ]);
    assert_eq!(
        vec![
            ServerMessage::State(State {
                transaction_id: 3,
                event: StateEvent::KeyValue(KeyValuePair::of("a", "1"))
            }),
            ServerMessage::State(State {
                transaction_id: 3,
                event: StateEvent::KeyValue(KeyValuePair::of("b", "2"))
            })
        ],
        forward_state(3, event.clone())
    );
    assert_eq!(
        vec![ServerMessage::State(State {
            transaction_id: 3,
            event: StateEvent::Deleted("a".to_owned())
        })],
        forward_state(3, PStateEvent::Deleted(vec!["a".to_owned()]))
    );
    assert_eq!(
        ServerMessage::PState(PState {
            transaction_id: 3,
            request_pattern: "?".to_owned(),
            event: event.clone()
        }),
        forward_pstate(3, "?", event.clone())
    );
    assert_eq!(
        vec![Some("1".to_owned()), Some("2".to_owned())],
        event.into_values()
    );
    assert_eq!(
        vec![None, None],
        PStateEvent::Deleted(vec!["a".to_owned(), "b".to_owned()]).into_values()
    );
    assert_eq!(
        Some("1".to_owned()),
        State {
            transaction_id: 1,
            event: StateEvent::from(KeyValuePair::of("a", "1"))
        }
        .into_value()
    );
}

#[test]
fn errors_say_what_went_wrong() {
    assert_eq!(
        "no value for key 'k'",
        WorterbuchError::NoSuchValue("k".to_owned()).message()
    );
    assert_eq!(
        "Key contains illegal wildcard: a/?",
        WorterbuchError::IllegalWildcard("a/?".to_owned()).message()
    );
    assert_eq!(
        "m: c",
        WorterbuchError::IoError("c".to_owned(), "m".to_owned()).message()
    );
    assert_eq!(
        "error 131: oops",
        WorterbuchError::ServerResponse(worterbuch::codec::ErrorReply {
            transaction_id: 1,
            error_code: 131,
            metadata: "oops".to_owned()
        })
        .message()
    );
    assert_eq!(
        "Operation read requires authentication",
        WorterbuchError::AuthenticationRequired(Privilege::Read).message()
    );
    assert_eq!(
        "No JWT was included in the request",
        WorterbuchError::Unauthorized(AuthorizationError::MissingToken).message()
    );
    assert_eq!("No JWT was configured", AuthorizationError::MissingSecret.message());
    assert_eq!("delete", Privilege::Delete.name());
}

#[test]
fn every_error_of_the_engine_has_its_message() {
    let errors = vec![
        WorterbuchError::IllegalWildcard("a/?".to_owned()),
        WorterbuchError::IllegalMultiWildcard("a/#".to_owned()),
        WorterbuchError::MultiWildcardAtIllegalPosition("#/a".to_owned()),
        WorterbuchError::NoSuchValue("k\"\n".to_owned()),
        WorterbuchError::NotSubscribed,
        WorterbuchError::IoError("c\\".to_owned(), "m\u{1}".to_owned()),
        WorterbuchError::SerDeError("c".to_owned(), "m".to_owned()),
        WorterbuchError::Other("c".to_owned(), "m".to_owned()),
        WorterbuchError::ProtocolNegotiationFailed,
        WorterbuchError::ReadOnlyKey("$SYS/a".to_owned()),
        WorterbuchError::AuthenticationRequired(Privilege::Write),
        WorterbuchError::AlreadyAuthenticated,
        WorterbuchError::AuthenticationFailed,
        WorterbuchError::Unauthorized(AuthorizationError::MissingToken),
    ];
    for e in errors {
        let reply = handle_store_error(&e, 7).expect("a message for every error");
        assert_eq!(7, reply.transaction_id);
        assert_eq!(ErrorCode::of(&e), reply.error_code);
        assert_eq!(
            encode_metadata(&metadata_for(&e, 7)),
            Some(reply.metadata.clone())
        );
        let request = ClientMessage::Get(Get {
            transaction_id: 7,
            key: "k".to_owned(),
        });
        assert_eq!(
            Some(ServerMessage::ErrorReply(reply)),
            respond(&request, Err(e))
        );
    }
    assert_eq!(
        Some("\"k\\\"\\n\"".to_owned()),
        encode_metadata(&Metadata::Quoted("k\"\n".to_owned()))
    );
    assert_eq!(
        Some("{\"cause\":\"c\\\\\",\"meta\":\"m\\u0001\"}".to_owned()),
        encode_metadata(&Metadata::Cause("c\\".to_owned(), "m\u{1}".to_owned()))
    );
}

#[test]
fn an_agreed_version_is_answered_by_a_handshake() {
    let request = ClientMessage::HandshakeRequest(HandshakeRequest {
        supported_protocol_versions: vec![ProtocolVersion { major: 0, minor: 6 }],
        last_will: vec![],
        grave_goods: vec![],
    });
    let handshake = Handshake {
        protocol_version: ProtocolVersion { major: 0, minor: 6 },
        separator: '/',
        wildcard: '?',
        multi_wildcard: '#',
    };
    assert_eq!(
        Some(ServerMessage::Handshake(handshake.clone())),
        respond(&request, Ok(WbAnswer::Agreed(handshake)))
    );
    assert_eq!(None, respond(&request, Ok(WbAnswer::Done)));
    let refused = respond(&request, Err(WorterbuchError::ProtocolNegotiationFailed));
    match refused {
        Some(ServerMessage::ErrorReply(reply)) => {
            assert_eq!(0, reply.transaction_id);
            assert_eq!(ErrorCode::ProtocolNegotiationFailed, reply.error_code);
        }
        other => panic!("no error message: {other:?}"),
    }
}
