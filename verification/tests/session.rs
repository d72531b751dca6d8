use uuid::Uuid;
use worterbuch::auth::{pattern_covers, JwtClaims, Rule};
use worterbuch::client::{
    AuthenticationRequest, ClientMessage, Delete, Get, HandshakeRequest, Ls, PDelete, PGet,
    PSubscribe, Publish, SetValue, Subscribe, SubscribeLs, Unsubscribe, UnsubscribeLs,
};
use worterbuch::codec::{KeyValuePair, ProtocolVersion};
use worterbuch::error::{AuthorizationError, ErrorCode, Privilege, WorterbuchError};
use worterbuch::key::KeySegment;
use worterbuch::server::{Ack, ServerMessage};
use worterbuch::session::{
    check_auth, check_client_keepalive, process_incoming_message, send_keepalive, Session,
    SessionState, Step, Tick,
};
use worterbuch::worterbuch::WbFunction;

fn claims(rules: &[(Privilege, &[&str])]) -> JwtClaims {
    JwtClaims {
        sub: "someone".to_owned(),
        name: "Some One".to_owned(),
        exp: 0,
        worterbuch_privileges: rules
            .iter()
            .map(|(privilege, patterns)| Rule {
                privilege: *privilege,
                patterns: patterns.iter().map(|p| p.to_string()).collect(),
            })
            .collect(),
    }
}

fn get(key: &str) -> ClientMessage {
    ClientMessage::Get(Get {
        transaction_id: 1,
        key: key.to_owned(),
    })
}

#[test]
fn a_rule_covers_what_it_matches() {
    let covers = |rule: &str, request: &str| {
        pattern_covers(&KeySegment::parse(rule), &KeySegment::parse(request))
    };
    assert!(covers("a/b", "a/b"));
    assert!(covers("a/?", "a/b"));
    assert!(covers("a/?", "a/?"));
    assert!(covers("a/#", "a/b/c"));
    assert!(covers("a/#", "a/?/c"));
    assert!(covers("a/#", "a/#"));
    assert!(covers("#", "a"));
    assert!(!covers("a/b", "a/?"));
    assert!(!covers("a/?", "a/#"));
    assert!(!covers("a/?", "a/b/c"));
    assert!(!covers("a/#", "a"));
    assert!(!covers("a/b", "a"));
    assert!(!covers("a", "a/b"));
    assert!(!covers("a/#/b", "a/x/b"));
}

#[test]
fn claims_allow_what_a_rule_of_the_privilege_covers() {
    let claims = claims(&[
        (Privilege::Read, &["public/#", "own/?"]),
        (Privilege::Write, &["own/?"]),
    ]);
    assert_eq!(Ok(()), claims.authorize(&Privilege::Read, "public/a/b"));
    assert_eq!(Ok(()), claims.authorize(&Privilege::Read, "own/x"));
    assert_eq!(Ok(()), claims.authorize(&Privilege::Write, "own/x"));
    assert_eq!(
        Err(AuthorizationError::InsufficientPrivileges(
            Privilege::Write,
            "public/a".to_owned()
        )),
        claims.authorize(&Privilege::Write, "public/a")
    );
    assert_eq!(
        Err(AuthorizationError::InsufficientPrivileges(
            Privilege::Delete,
            "own/x".to_owned()
        )),
        claims.authorize(&Privilege::Delete, "own/x")
    );
}

#[test]
fn check_auth_asks_for_authentication_first() {
    assert_eq!(Ok(()), check_auth(false, Privilege::Read, "a", &None));
    assert_eq!(
        Err(WorterbuchError::AuthenticationRequired(Privilege::Read)),
        check_auth(true, Privilege::Read, "a", &None)
    );
    let claims = Some(claims(&[(Privilege::Read, &["a"])]));
    assert_eq!(Ok(()), check_auth(true, Privilege::Read, "a", &claims));
    assert_eq!(
        Err(WorterbuchError::Unauthorized(
            AuthorizationError::InsufficientPrivileges(Privilege::Read, "b".to_owned())
        )),
        check_auth(true, Privilege::Read, "b", &claims)
    );
}

#[test]
fn every_request_becomes_the_call_for_the_engine() {
    let id = Uuid::new_v4().as_u128();
    let name = Uuid::from_u128(id).to_string();
    let step = |msg: ClientMessage| process_incoming_message(id, msg, false, &None);
    assert_eq!(Ok(Step::Call(WbFunction::Get("a".to_owned()))), step(get("a")));
    assert_eq!(
        Ok(Step::Call(WbFunction::PGet("a/#".to_owned()))),
        step(ClientMessage::PGet(PGet {
            transaction_id: 1,
            request_pattern: "a/#".to_owned()
        }))
    );
    assert_eq!(
        Ok(Step::Call(WbFunction::SetValue(
            "a".to_owned(),
            "1".to_owned(),
            name.clone()
        ))),
        step(ClientMessage::SetValue(SetValue {
            transaction_id: 1,
            key: "a".to_owned(),
            value: "1".to_owned()
        }))
    );
    assert_eq!(
        Ok(Step::Call(WbFunction::Publish("a".to_owned(), "1".to_owned()))),
        step(ClientMessage::Publish(Publish {
            transaction_id: 1,
            key: "a".to_owned(),
            value: "1".to_owned()
        }))
    );
    assert_eq!(
        Ok(Step::Call(WbFunction::Subscribe(
            id,
            3,
            "a".to_owned(),
            true,
            false
        ))),
        step(ClientMessage::Subscribe(Subscribe {
            transaction_id: 3,
            key: "a".to_owned(),
            unique: true,
            live_only: None
        }))
    );
    assert_eq!(
        Ok(Step::Call(WbFunction::PSubscribe(
            id,
            4,
            "a/#".to_owned(),
            false,
            true
        ))),
        step(ClientMessage::PSubscribe(PSubscribe {
            transaction_id: 4,
            request_pattern: "a/#".to_owned(),
            unique: false,
            aggregate_events: Some(50),
            live_only: Some(true)
        }))
    );
    assert_eq!(
        Ok(Step::Call(WbFunction::Unsubscribe(id, 4))),
        step(ClientMessage::Unsubscribe(Unsubscribe { transaction_id: 4 }))
    );
    assert_eq!(
        Ok(Step::Call(WbFunction::Delete("a".to_owned(), name.clone()))),
        step(ClientMessage::Delete(Delete {
            transaction_id: 1,
            key: "a".to_owned()
        }))
    );
    assert_eq!(
        Ok(Step::Call(WbFunction::PDelete("a/?".to_owned(), name.clone()))),
        step(ClientMessage::PDelete(PDelete {
            transaction_id: 1,
            request_pattern: "a/?".to_owned()
        }))
    );
    assert_eq!(
        Ok(Step::Call(WbFunction::Ls(Some("a".to_owned())))),
        step(ClientMessage::Ls(Ls {
            transaction_id: 1,
            parent: Some("a".to_owned())
        }))
    );
    assert_eq!(
        Ok(Step::Call(WbFunction::SubscribeLs(id, 9, None))),
        step(ClientMessage::SubscribeLs(SubscribeLs {
            transaction_id: 9,
            parent: None
        }))
    );
    assert_eq!(
        Ok(Step::Call(WbFunction::UnsubscribeLs(id, 9))),
        step(ClientMessage::UnsubscribeLs(UnsubscribeLs {
            transaction_id: 9
        }))
    );
    assert_eq!(Ok(Step::Nothing), step(ClientMessage::Keepalive));
    assert_eq!(
        Ok(Step::Authenticate("token".to_owned())),
        step(ClientMessage::AuthenticationRequest(AuthenticationRequest {
            auth_token: "token".to_owned()
        }))
    );
}

#[test]
fn a_request_needs_its_privilege() {
    let reader = Some(claims(&[(Privilege::Read, &["a/?", "?"])]));
    let step = |msg: ClientMessage| process_incoming_message(1, msg, true, &reader);
    assert!(step(get("a/b")).is_ok());
    assert!(step(ClientMessage::Ls(Ls {
        transaction_id: 1,
        parent: Some("a".to_owned())
    }))
    .is_ok());
    assert!(step(ClientMessage::Ls(Ls {
        transaction_id: 1,
        parent: None
    }))
    .is_ok());
    assert_eq!(
        Err(WorterbuchError::Unauthorized(
            AuthorizationError::InsufficientPrivileges(Privilege::Read, "b/?".to_owned())
        )),
        step(ClientMessage::SubscribeLs(SubscribeLs {
            transaction_id: 1,
            parent: Some("b".to_owned())
        }))
    );
    assert_eq!(
        Err(WorterbuchError::Unauthorized(
            AuthorizationError::InsufficientPrivileges(Privilege::Write, "a/b".to_owned())
        )),
        step(ClientMessage::SetValue(SetValue {
            transaction_id: 1,
            key: "a/b".to_owned(),
            value: "1".to_owned()
        }))
    );
    assert_eq!(
        Err(WorterbuchError::Unauthorized(
            AuthorizationError::InsufficientPrivileges(Privilege::Delete, "a/b".to_owned())
        )),
        step(ClientMessage::Delete(Delete {
            transaction_id: 1,
            key: "a/b".to_owned()
        }))
    );
    assert_eq!(
        Err(WorterbuchError::AlreadyAuthenticated),
        step(ClientMessage::AuthenticationRequest(AuthenticationRequest {
            auth_token: "token".to_owned()
        }))
    );
    assert_eq!(
        Err(WorterbuchError::AuthenticationRequired(Privilege::Read)),
        process_incoming_message(1, get("a/b"), true, &None)
    );
    assert!(step(ClientMessage::Unsubscribe(Unsubscribe { transaction_id: 1 })).is_ok());
}

fn accept(auth_required: bool, timeout: u64, now: u64) -> Session {
    let (session, welcome) = Session::accept(
        7,
        auth_required,
        timeout,
        now,
        "1.2.3".to_owned(),
        ProtocolVersion { major: 0, minor: 6 },
    );
    match welcome {
        ServerMessage::Welcome(welcome) => {
            assert_eq!(Uuid::from_u128(7).to_string(), welcome.client_id);
            assert_eq!("1.2.3", welcome.info.version);
            assert_eq!(auth_required, welcome.info.authentication_required);
            assert_eq!(
                ProtocolVersion { major: 0, minor: 6 },
                welcome.info.protocol_version
            );
        }
        other => panic!("no welcome: {other:?}"),
    }
    session
}

#[test]
fn a_session_is_ready_at_once_where_no_authentication_is_required() {
    let mut session = accept(false, 5000, 0);
    assert_eq!(SessionState::Ready, session.current_state());
    assert_eq!(
        Some(Ok(Step::Call(WbFunction::Get("a".to_owned())))),
        session.on_message(get("a"), 10)
    );
    assert_eq!(SessionState::Ready, session.current_state());
    assert_eq!(None, session.authenticated(claims(&[])));
}

#[test]
fn a_session_awaits_authentication_where_it_is_required() {
    let mut session = accept(true, 5000, 0);
    assert_eq!(SessionState::AwaitingAuth, session.current_state());
    assert_eq!(
        Some(Ok(Step::Authenticate("t".to_owned()))),
        session.on_message(
            ClientMessage::AuthenticationRequest(AuthenticationRequest {
                auth_token: "t".to_owned()
            }),
            1
        )
    );
    assert_eq!(
        Some(ServerMessage::Authenticated(Ack { transaction_id: 0 })),
        session.authenticated(claims(&[(Privilege::Read, &["#"])]))
    );
    assert_eq!(SessionState::Ready, session.current_state());
    assert!(session.on_message(get("a"), 2).unwrap().is_ok());

    let mut strict = accept(true, 5000, 0);
    assert_eq!(
        Some(Err(WorterbuchError::AuthenticationRequired(Privilege::Read))),
        strict.on_message(get("a"), 1)
    );
    assert_eq!(SessionState::Closing, strict.current_state());
    assert_eq!(None, strict.on_message(get("a"), 2));

    let mut failed = accept(true, 5000, 0);
    let msg =
        failed.authentication_failed(AuthorizationError::TokenDecodeError("bad token".to_owned()));
    match msg {
        ServerMessage::ErrorReply(reply) => {
            assert_eq!(ErrorCode::Unauthorized, reply.error_code);
            assert_eq!(0, reply.transaction_id);
            assert_eq!("bad token", reply.metadata);
        }
        other => panic!("no error message: {other:?}"),
    }
    assert_eq!(SessionState::Closing, failed.current_state());
}

#[test]
fn keepalive_is_due_after_a_second_and_the_session_closes_at_the_timeout() {
    let quiet = Tick {
        keepalive: false,
        inactive: None,
        close: false,
    };
    let mut session = accept(false, 5000, 1000);
    assert_eq!(quiet, session.on_tick(1999));
    assert_eq!(
        Tick {
            keepalive: true,
            ..quiet
        },
        session.on_tick(2000)
    );
    session.sent(2000);
    assert_eq!(quiet, session.on_tick(2999));
    assert_eq!(
        Tick {
            keepalive: true,
            inactive: Some(2000),
            close: false
        },
        session.on_tick(3000)
    );
    session.sent(3000);
    session.on_message(ClientMessage::Keepalive, 3500);
    assert_eq!(quiet, session.on_tick(3999));
    assert_eq!(
        Tick {
            keepalive: true,
            inactive: Some(4999),
            close: false
        },
        session.on_tick(8499)
    );
    assert_eq!(
        Tick {
            keepalive: false,
            inactive: None,
            close: true
        },
        session.on_tick(8500)
    );
    assert_eq!(SessionState::Closing, session.current_state());
    assert_eq!(quiet, session.on_tick(9000));
    assert_eq!(WbFunction::Disconnected(7), session.close());
}

#[test]
fn the_keepalive_rules_count_from_the_last_message() {
    assert!(!send_keepalive(1000, 1999));
    assert!(send_keepalive(1000, 2000));
    assert!(!send_keepalive(2000, 1000));
    assert_eq!(Ok(None), check_client_keepalive(0, 1999, 5000));
    assert_eq!(Ok(Some(2000)), check_client_keepalive(0, 2000, 5000));
    assert_eq!(Ok(Some(4999)), check_client_keepalive(0, 4999, 5000));
    assert!(check_client_keepalive(0, 5000, 5000).is_err());
    assert_eq!(Ok(None), check_client_keepalive(10, 0, 5000));
}

#[test]
fn a_rule_that_does_not_cover_misses_a_key_of_the_request() {
    let covers = |rule: &str, request: &str| {
        pattern_covers(&KeySegment::parse(rule), &KeySegment::parse(request))
    };
    assert!(covers("a/#", "a/b/#"));
    assert!(covers("a/?/c", "a/b/c"));
    assert!(covers("#", "?"));
    assert!(!covers("?", "#"));
    assert!(!covers("a/?", "a/#"));
    assert!(!covers("a/x", "a/?"));
    assert!(!covers("a", "a/b"));
    assert!(!covers("a/b", "a"));
    assert!(!covers("#/a", "b/a"));
}

#[test]
fn a_frame_that_cannot_be_read_closes_the_session() {
    let mut session = accept(false, 5000, 0);
    assert_eq!(
        Some(Ok(Step::Call(WbFunction::Get("a".to_owned())))),
        session.on_frame(Some(get("a")), 10)
    );
    assert_eq!(SessionState::Ready, session.current_state());
    assert_eq!(None, session.on_frame(None, 20));
    assert_eq!(SessionState::Closing, session.current_state());
    assert_eq!(None, session.on_frame(Some(get("a")), 30));
}

#[test]
fn a_frame_without_text_is_a_sign_of_life() {
    let mut session = accept(false, 5000, 0);
    session.received(4000);
    assert!(!session.on_tick(8999).close);
    assert!(session.on_tick(9000).close);
    session.received(9500);
    assert!(!session.on_tick(9600).close);
    assert_eq!(SessionState::Closing, session.current_state());
}

#[test]
fn a_client_writes_under_the_text_of_its_id() {
    let id = 0u128;
    let set = ClientMessage::SetValue(SetValue {
        transaction_id: 1,
        key: "a".to_owned(),
        value: "1".to_owned(),
    });
    assert_eq!(
        Ok(Step::Call(WbFunction::SetValue(
            "a".to_owned(),
            "1".to_owned(),
            "00000000-0000-0000-0000-000000000000".to_owned()
        ))),
        process_incoming_message(id, set, false, &None)
    );
    assert_eq!(36, Uuid::from_u128(u128::MAX).to_string().len());
}

#[test]
fn a_handshake_needs_the_privileges_for_what_the_client_leaves() {
    let request = |last_will: Vec<&str>, grave_goods: Vec<&str>| {
        ClientMessage::HandshakeRequest(HandshakeRequest {
            supported_protocol_versions: vec![ProtocolVersion { major: 0, minor: 6 }],
            last_will: last_will
                .into_iter()
                .map(|key| KeyValuePair::of(key, "1"))
                .collect(),
            grave_goods: grave_goods.into_iter().map(|p| p.to_owned()).collect(),
        })
    };
    let call = |last_will: Vec<&str>, grave_goods: Vec<&str>| {
        Ok(Step::Call(WbFunction::Handshake(
            7,
            vec![ProtocolVersion { major: 0, minor: 6 }],
            last_will
                .into_iter()
                .map(|key| KeyValuePair::of(key, "1"))
                .collect(),
            grave_goods.into_iter().map(|p| p.to_owned()).collect(),
        )))
    };
    assert_eq!(
        call(vec!["a"], vec!["b/#"]),
        process_incoming_message(7, request(vec!["a"], vec!["b/#"]), false, &None)
    );
    assert_eq!(
        call(vec![], vec![]),
        process_incoming_message(7, request(vec![], vec![]), true, &None)
    );
    assert_eq!(
        Err(WorterbuchError::AuthenticationRequired(Privilege::Write)),
        process_incoming_message(7, request(vec!["a"], vec!["b/#"]), true, &None)
    );
    assert_eq!(
        Err(WorterbuchError::AuthenticationRequired(Privilege::Delete)),
        process_incoming_message(7, request(vec![], vec!["b/#"]), true, &None)
    );
    let some = Some(claims(&[
        (Privilege::Write, &["mine/#"]),
        (Privilege::Delete, &["mine/#"]),
    ]));
    assert_eq!(
        call(vec!["mine/a", "mine/b"], vec!["mine/x/#"]),
        process_incoming_message(
            7,
            request(vec!["mine/a", "mine/b"], vec!["mine/x/#"]),
            true,
            &some
        )
    );
    assert_eq!(
        Err(WorterbuchError::Unauthorized(
            AuthorizationError::InsufficientPrivileges(Privilege::Write, "yours".to_owned())
        )),
        process_incoming_message(
            7,
            request(vec!["mine/a", "yours", "other"], vec!["#"]),
            true,
            &some
        )
    );
    assert_eq!(
        Err(WorterbuchError::Unauthorized(
            AuthorizationError::InsufficientPrivileges(Privilege::Delete, "#".to_owned())
        )),
        process_incoming_message(7, request(vec!["mine/a"], vec!["mine/#", "#"]), true, &some)
    );
}
