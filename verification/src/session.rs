//! The rules of a session: one connection of one client.
//!
//! A session is accepted, waits for the client to authenticate where that
//! is required, is ready for requests, and closes. Who runs the session
//! reads messages and the clock and asks the session what to do.

use crate::auth::{allows, JwtClaims};
use crate::client::ClientMessage;
use crate::codec::{KeyValuePair, ProtocolVersion};
use crate::error::{
    AuthorizationError, AuthorizationErrorView, ErrorView, Privilege, WorterbuchError,
};
use crate::reply::{handle_store_error, reports};
use crate::server::{Ack, ServerInfo, ServerMessage, Welcome};
use crate::text::{concat2, uuid_string, uuid_text};
use crate::worterbuch::{internal_client, WbFunction};
use vstd::prelude::*;

verus! {

/// The time in milliseconds.
pub type Millis = u64;

/// After how long without a message to the client a keepalive is sent.
pub const KEEPALIVE_INTERVAL: Millis = 1000;

/// After how long without a message from the client a warning is due.
pub const INACTIVITY_WARNING: Millis = 2000;

/// Where a session stands.
#[derive(Debug, Clone, Copy, PartialEq, Eq, Structural)]
pub enum SessionState {
    /// The client has to authenticate before its requests are served.
    AwaitingAuth,
    /// Requests are served.
    Ready,
    /// The session has ended.
    Closing,
}

/// What the session does with a message.
#[derive(Debug, PartialEq, Eq)]
pub enum Step {
    /// The token is to be checked; the session is told of the outcome.
    Authenticate(String),
    /// The request is to be handed to the engine.
    Call(WbFunction),
    /// There is nothing to do.
    Nothing,
}

/// What is due at a tick of the clock.
#[derive(Debug, Clone, Copy, PartialEq, Eq, Structural)]
pub struct Tick {
    /// A keepalive message is to be sent.
    pub keepalive: bool,
    /// The client has been silent for this long, which is worth a warning.
    pub inactive: Option<Millis>,
    /// The session is to be closed: the client has been silent for too
    /// long.
    pub close: bool,
}

/// One session.
pub struct Session {
    client_id: u128,
    state: SessionState,
    auth_required: bool,
    claims: Option<JwtClaims>,
    last_rx: Millis,
    last_tx: Millis,
    keepalive_timeout: Millis,
}

/// The privilege that a request needs, and the pattern for which it needs
/// it; nothing for a message that needs none.
///
/// A request for the children of a parent needs to read `parent/?`, and
/// one for the children of the root needs to read `?`.
pub open spec fn needs(msg: ClientMessage) -> Option<(Privilege, Seq<char>)> {
    match msg {
        ClientMessage::Get(m) => Some((Privilege::Read, m.key@)),
        ClientMessage::PGet(m) => Some((Privilege::Read, m.request_pattern@)),
        ClientMessage::SetValue(m) => Some((Privilege::Write, m.key@)),
        ClientMessage::Publish(m) => Some((Privilege::Write, m.key@)),
        ClientMessage::Subscribe(m) => Some((Privilege::Read, m.key@)),
        ClientMessage::PSubscribe(m) => Some((Privilege::Read, m.request_pattern@)),
        ClientMessage::Delete(m) => Some((Privilege::Delete, m.key@)),
        ClientMessage::PDelete(m) => Some((Privilege::Delete, m.request_pattern@)),
        ClientMessage::Ls(m) => Some((Privilege::Read, children_pattern(m.parent))),
        ClientMessage::SubscribeLs(m) => Some((Privilege::Read, children_pattern(m.parent))),
        ClientMessage::HandshakeRequest(_) => None,
        ClientMessage::AuthenticationRequest(_) => None,
        ClientMessage::Unsubscribe(_) => None,
        ClientMessage::UnsubscribeLs(_) => None,
        ClientMessage::Keepalive => None,
    }
}

/// The pattern that matches the children of `parent`.
pub open spec fn children_pattern(parent: Option<String>) -> Seq<char> {
    match parent {
        Some(p) => p@ + "/?"@,
        None => "?"@,
    }
}

/// Why a request is not authorized, if it is not: where authentication is
/// required, a client without claims has to authenticate first, and the
/// claims of a client have to allow the request.
pub open spec fn refusal(
    auth_required: bool,
    privilege: Privilege,
    pattern: Seq<char>,
    auth: Option<JwtClaims>,
) -> Option<ErrorView> {
    if !auth_required {
        None
    } else {
        match auth {
            Some(claims) => if allows(claims.worterbuch_privileges@, privilege, pattern) {
                None
            } else {
                Some(
                    ErrorView::Unauthorized(
                        AuthorizationErrorView::InsufficientPrivileges(privilege, pattern),
                    ),
                )
            },
            None => Some(ErrorView::AuthenticationRequired(privilege)),
        }
    }
}

/// What a client needs to leave a last will and grave goods: to write
/// each key of the will and to delete by each pattern of the goods, in this
/// order.
pub open spec fn bequest_needs(last_will: Seq<KeyValuePair>, grave_goods: Seq<String>) -> Seq<
    (Privilege, Seq<char>),
> {
    last_will.map_values(|pair: KeyValuePair| (Privilege::Write, pair.key@)) + grave_goods.map_values(
        |pattern: String| (Privilege::Delete, pattern@),
    )
}

/// The first refusal among those of the needs `needed`, from the place
/// `from` on.
pub open spec fn first_refusal(
    auth_required: bool,
    auth: Option<JwtClaims>,
    needed: Seq<(Privilege, Seq<char>)>,
    from: int,
) -> Option<ErrorView>
    decreases needed.len() - from,
{
    if from < 0 || from >= needed.len() {
        None
    } else {
        match refusal(auth_required, needed[from].0, needed[from].1, auth) {
            Some(e) => Some(e),
            None => first_refusal(auth_required, auth, needed, from + 1),
        }
    }
}

/// Why a message is refused, if it is: a request needs its privilege, and a
/// handshake needs the privileges for all that the client wants to leave.
pub open spec fn refused(msg: ClientMessage, auth_required: bool, auth: Option<JwtClaims>) -> Option<
    ErrorView,
> {
    match msg {
        ClientMessage::HandshakeRequest(m) => first_refusal(
            auth_required,
            auth,
            bequest_needs(m.last_will@, m.grave_goods@),
            0,
        ),
        _ => match needs(msg) {
            Some((privilege, pattern)) => refusal(auth_required, privilege, pattern, auth),
            None => None,
        },
    }
}

/// The request to the engine that a message of the client `client_id`
/// stands for; nothing for a message that is no request to the engine.
pub open spec fn request_of(client_id: u128, msg: ClientMessage) -> Option<WbFunction> {
    match msg {
        ClientMessage::Get(m) => Some(WbFunction::Get(m.key)),
        ClientMessage::PGet(m) => Some(WbFunction::PGet(m.request_pattern)),
        ClientMessage::Subscribe(m) => Some(
            WbFunction::Subscribe(
                client_id,
                m.transaction_id,
                m.key,
                m.unique,
                m.live_only == Some(true),
            ),
        ),
        ClientMessage::PSubscribe(m) => Some(
            WbFunction::PSubscribe(
                client_id,
                m.transaction_id,
                m.request_pattern,
                m.unique,
                m.live_only == Some(true),
            ),
        ),
        ClientMessage::Unsubscribe(m) => Some(WbFunction::Unsubscribe(client_id, m.transaction_id)),
        ClientMessage::Ls(m) => Some(WbFunction::Ls(m.parent)),
        ClientMessage::SubscribeLs(m) => Some(
            WbFunction::SubscribeLs(client_id, m.transaction_id, m.parent),
        ),
        ClientMessage::UnsubscribeLs(m) => Some(
            WbFunction::UnsubscribeLs(client_id, m.transaction_id),
        ),
        ClientMessage::HandshakeRequest(m) => Some(
            WbFunction::Handshake(
                client_id,
                m.supported_protocol_versions,
                m.last_will,
                m.grave_goods,
            ),
        ),
        _ => None,
    }
}

/// Checks that a request is authorized.
pub fn check_auth(
    auth_required: bool,
    privilege: Privilege,
    pattern: &str,
    auth: &Option<JwtClaims>,
) -> (r: Result<(), WorterbuchError>)
    ensures
        match r {
            Ok(_) => refusal(auth_required, privilege, pattern@, *auth) is None,
            Err(e) => refusal(auth_required, privilege, pattern@, *auth) == Some(e@),
        },
{
    if auth_required {
        match auth {
            Some(claims) => {
                match claims.authorize(&privilege, pattern) {
                    Ok(_) => Ok(()),
                    Err(e) => Err(WorterbuchError::Unauthorized(e)),
                }
            },
            None => Err(WorterbuchError::AuthenticationRequired(privilege)),
        }
    } else {
        Ok(())
    }
}

/// Checks that a client may leave the last will and the grave goods: the
/// first refusal is the answer.
pub fn check_bequest(
    auth_required: bool,
    last_will: &Vec<KeyValuePair>,
    grave_goods: &Vec<String>,
    auth: &Option<JwtClaims>,
) -> (r: Result<(), WorterbuchError>)
    ensures
        match r {
            Ok(_) => first_refusal(
                auth_required,
                *auth,
                bequest_needs(last_will@, grave_goods@),
                0,
            ) is None,
            Err(e) => first_refusal(
                auth_required,
                *auth,
                bequest_needs(last_will@, grave_goods@),
                0,
            ) == Some(e@),
        },
{
    let ghost needed = bequest_needs(last_will@, grave_goods@);
    let mut i: usize = 0;
    while i < last_will.len()
        invariant
            i <= last_will.len(),
            needed == bequest_needs(last_will@, grave_goods@),
            first_refusal(auth_required, *auth, needed, 0) == first_refusal(
                auth_required,
                *auth,
                needed,
                i as int,
            ),
        decreases last_will.len() - i,
    {
        assert(needed[i as int] == (Privilege::Write, last_will[i as int].key@));
        check_auth(auth_required, Privilege::Write, last_will[i].key.as_str(), auth)?;
        i += 1;
    }
    let mut j: usize = 0;
    while j < grave_goods.len()
        invariant
            j <= grave_goods.len(),
            needed == bequest_needs(last_will@, grave_goods@),
            first_refusal(auth_required, *auth, needed, 0) == first_refusal(
                auth_required,
                *auth,
                needed,
                last_will.len() + j,
            ),
        decreases grave_goods.len() - j,
    {
        assert(needed[last_will.len() + j] == (Privilege::Delete, grave_goods[j as int]@));
        check_auth(auth_required, Privilege::Delete, grave_goods[j].as_str(), auth)?;
        j += 1;
    }
    Ok(())
}

/// The pattern that matches the children of `parent`.
pub fn pattern_of_children(parent: &Option<String>) -> (pattern: String)
    ensures
        pattern@ == children_pattern(*parent),
{
    match parent {
        Some(p) => concat2(p.as_str(), "/?"),
        None => "?".to_owned(),
    }
}

/// What the step for a message has to be, given the name under which the
/// client writes. A write is made under that name, which is not the name
/// under which the server itself writes.
pub open spec fn step_is(client_id: u128, name: Seq<char>, msg: ClientMessage, step: Step) -> bool {
    match msg {
        ClientMessage::AuthenticationRequest(m) => step == Step::Authenticate(m.auth_token),
        ClientMessage::Keepalive => step == Step::Nothing,
        ClientMessage::SetValue(m) => match step {
            Step::Call(WbFunction::SetValue(key, value, client)) => key == m.key && value == m.value
                && client@ == name && client@ != internal_client(),
            _ => false,
        },
        ClientMessage::Publish(m) => step == Step::Call(WbFunction::Publish(m.key, m.value)),
        ClientMessage::Delete(m) => match step {
            Step::Call(WbFunction::Delete(key, client)) => key == m.key && client@ == name
                && client@ != internal_client(),
            _ => false,
        },
        ClientMessage::PDelete(m) => match step {
            Step::Call(WbFunction::PDelete(pattern, client)) => pattern == m.request_pattern
                && client@ == name && client@ != internal_client(),
            _ => false,
        },
        _ => match request_of(client_id, msg) {
            Some(function) => step == Step::Call(function),
            None => false,
        },
    }
}

/// The outcome of a message: the step to take, or the error that ends the
/// session.
///
/// A request to authenticate is refused where the client has claims
/// already. Every other message is refused where it needs a privilege that
/// the client does not have; a handshake needs those for what the client
/// wants to leave. A write is made under the text of the
/// client's id, which is never the name under which the server itself
/// writes.
pub open spec fn outcome_is(
    client_id: u128,
    msg: ClientMessage,
    auth_required: bool,
    auth: Option<JwtClaims>,
    r: Result<Step, WorterbuchError>,
) -> bool {
    let name = uuid_text(client_id);
    let refused = refused(msg, auth_required, auth);
    match r {
        Ok(step) => {
            &&& !(msg is AuthenticationRequest && auth is Some)
            &&& refused is None
            &&& step_is(client_id, name, msg, step)
        },
        Err(e) => if msg is AuthenticationRequest {
            auth is Some && e@ == ErrorView::AlreadyAuthenticated
        } else {
            Some(e@) == refused
        },
    }
}

/// The name under which the client `client_id` writes: the text of its
/// UUID. It is never the name under which the server itself writes, which
/// is shorter.
pub fn writer_name(client_id: u128) -> (name: String)
    ensures
        name@ == uuid_text(client_id),
        name@ != internal_client(),
{
    let name = uuid_string(client_id);
    proof {
        reveal_strlit("internal_client_id");
    }
    name
}

/// Decides what to do with a message of a client.
pub fn process_incoming_message(
    client_id: u128,
    msg: ClientMessage,
    auth_required: bool,
    auth: &Option<JwtClaims>,
) -> (r: Result<Step, WorterbuchError>)
    ensures
        outcome_is(client_id, msg, auth_required, *auth, r),
{
    match msg {
        ClientMessage::HandshakeRequest(msg) => {
            check_bequest(auth_required, &msg.last_will, &msg.grave_goods, auth)?;
            Ok(
                Step::Call(
                    WbFunction::Handshake(
                        client_id,
                        msg.supported_protocol_versions,
                        msg.last_will,
                        msg.grave_goods,
                    ),
                ),
            )
        },
        ClientMessage::AuthenticationRequest(msg) => {
            if auth.is_some() {
                return Err(WorterbuchError::AlreadyAuthenticated);
            }
            Ok(Step::Authenticate(msg.auth_token))
        },
        ClientMessage::Get(msg) => {
            check_auth(auth_required, Privilege::Read, msg.key.as_str(), auth)?;
            Ok(Step::Call(WbFunction::Get(msg.key)))
        },
        ClientMessage::PGet(msg) => {
            check_auth(auth_required, Privilege::Read, msg.request_pattern.as_str(), auth)?;
            Ok(Step::Call(WbFunction::PGet(msg.request_pattern)))
        },
        ClientMessage::SetValue(msg) => {
            check_auth(auth_required, Privilege::Write, msg.key.as_str(), auth)?;
            let name = writer_name(client_id);
            Ok(Step::Call(WbFunction::SetValue(msg.key, msg.value, name)))
        },
        ClientMessage::Publish(msg) => {
            check_auth(auth_required, Privilege::Write, msg.key.as_str(), auth)?;
            Ok(Step::Call(WbFunction::Publish(msg.key, msg.value)))
        },
        ClientMessage::Subscribe(msg) => {
            check_auth(auth_required, Privilege::Read, msg.key.as_str(), auth)?;
            let live_only = match msg.live_only {
                Some(flag) => flag,
                None => false,
            };
            Ok(
                Step::Call(
                    WbFunction::Subscribe(
                        client_id,
                        msg.transaction_id,
                        msg.key,
                        msg.unique,
                        live_only,
                    ),
                ),
            )
        },
        ClientMessage::PSubscribe(msg) => {
            check_auth(auth_required, Privilege::Read, msg.request_pattern.as_str(), auth)?;
            let live_only = match msg.live_only {
                Some(flag) => flag,
                None => false,
            };
            Ok(
                Step::Call(
                    WbFunction::PSubscribe(
                        client_id,
                        msg.transaction_id,
                        msg.request_pattern,
                        msg.unique,
                        live_only,
                    ),
                ),
            )
        },
        ClientMessage::Unsubscribe(msg) => Ok(
            Step::Call(WbFunction::Unsubscribe(client_id, msg.transaction_id)),
        ),
        ClientMessage::Delete(msg) => {
            check_auth(auth_required, Privilege::Delete, msg.key.as_str(), auth)?;
            let name = writer_name(client_id);
            Ok(Step::Call(WbFunction::Delete(msg.key, name)))
        },
        ClientMessage::PDelete(msg) => {
            check_auth(auth_required, Privilege::Delete, msg.request_pattern.as_str(), auth)?;
            let name = writer_name(client_id);
            Ok(Step::Call(WbFunction::PDelete(msg.request_pattern, name)))
        },
        ClientMessage::Ls(msg) => {
            let pattern = pattern_of_children(&msg.parent);
            check_auth(auth_required, Privilege::Read, pattern.as_str(), auth)?;
            Ok(Step::Call(WbFunction::Ls(msg.parent)))
        },
        ClientMessage::SubscribeLs(msg) => {
            let pattern = pattern_of_children(&msg.parent);
            check_auth(auth_required, Privilege::Read, pattern.as_str(), auth)?;
            Ok(Step::Call(WbFunction::SubscribeLs(client_id, msg.transaction_id, msg.parent)))
        },
        ClientMessage::UnsubscribeLs(msg) => Ok(
            Step::Call(WbFunction::UnsubscribeLs(client_id, msg.transaction_id)),
        ),
        ClientMessage::Keepalive => Ok(Step::Nothing),
    }
}

/// How long `then` lies before `now`; nothing where it does not.
pub open spec fn elapsed(then: Millis, now: Millis) -> nat {
    if now >= then {
        (now - then) as nat
    } else {
        0
    }
}

/// Whether a keepalive message is due: nothing was sent to the client for
/// a second.
pub fn send_keepalive(last_keepalive_tx: Millis, now: Millis) -> (due: bool)
    ensures
        due == (elapsed(last_keepalive_tx, now) >= KEEPALIVE_INTERVAL),
{
    now.saturating_sub(last_keepalive_tx) >= KEEPALIVE_INTERVAL
}

/// Checks that the client is still there: fails where nothing came from
/// the client for the time of the keepalive timeout, and else says for how
/// long the client has been silent where that is two seconds or more.
pub fn check_client_keepalive(last_keepalive_rx: Millis, now: Millis, keepalive_timeout: Millis) -> (r:
    Result<Option<Millis>, WorterbuchError>)
    ensures
        match r {
            Ok(warning) => elapsed(last_keepalive_rx, now) < keepalive_timeout && warning == (
            if elapsed(last_keepalive_rx, now) >= INACTIVITY_WARNING {
                Some(elapsed(last_keepalive_rx, now) as u64)
            } else {
                None
            }),
            Err(e) => elapsed(last_keepalive_rx, now) >= keepalive_timeout && e@
                == ErrorView::Other("client has been inactive for too long"@, "keepalive"@),
        },
{
    let lag = now.saturating_sub(last_keepalive_rx);
    if lag >= keepalive_timeout {
        Err(
            WorterbuchError::Other(
                "client has been inactive for too long".to_owned(),
                "keepalive".to_owned(),
            ),
        )
    } else if lag >= INACTIVITY_WARNING {
        Ok(Some(lag))
    } else {
        Ok(None)
    }
}

impl Session {
    pub closed spec fn client_id(&self) -> u128 {
        self.client_id
    }

    pub closed spec fn state(&self) -> SessionState {
        self.state
    }

    pub closed spec fn auth_required(&self) -> bool {
        self.auth_required
    }

    pub closed spec fn claims(&self) -> Option<JwtClaims> {
        self.claims
    }

    pub closed spec fn last_rx(&self) -> Millis {
        self.last_rx
    }

    pub closed spec fn last_tx(&self) -> Millis {
        self.last_tx
    }

    pub closed spec fn keepalive_timeout(&self) -> Millis {
        self.keepalive_timeout
    }

    /// A session that awaits authentication has no claims.
    pub closed spec fn wf(&self) -> bool {
        self.state is AwaitingAuth ==> self.auth_required && self.claims is None
    }

    /// Accepts a connection at the time `now`: the session waits for the
    /// client to authenticate where that is required and is ready else, and
    /// the client is welcomed.
    pub fn accept(
        client_id: u128,
        auth_required: bool,
        keepalive_timeout: Millis,
        now: Millis,
        version: String,
        protocol_version: ProtocolVersion,
    ) -> (r: (Session, ServerMessage))
        ensures
            r.0.wf(),
            r.0.client_id() == client_id,
            r.0.auth_required() == auth_required,
            r.0.claims() is None,
            r.0.keepalive_timeout() == keepalive_timeout,
            r.0.last_rx() == now,
            r.0.last_tx() == now,
            r.0.state() == (if auth_required {
                SessionState::AwaitingAuth
            } else {
                SessionState::Ready
            }),
            match r.1 {
                ServerMessage::Welcome(welcome) => {
                    &&& welcome.client_id@ == uuid_text(client_id)
                    &&& welcome.info.version == version
                    &&& welcome.info.authentication_required == auth_required
                    &&& welcome.info.protocol_version == protocol_version
                },
                _ => false,
            },
    {
        let state = if auth_required {
            SessionState::AwaitingAuth
        } else {
            SessionState::Ready
        };
        let session = Session {
            client_id,
            state,
            auth_required,
            claims: None,
            last_rx: now,
            last_tx: now,
            keepalive_timeout,
        };
        let welcome = Welcome {
            client_id: uuid_string(client_id),
            info: ServerInfo { version, authentication_required: auth_required, protocol_version },
        };
        (session, ServerMessage::Welcome(welcome))
    }

    /// Where the session stands.
    pub fn current_state(&self) -> (state: SessionState)
        ensures
            state == self.state(),
    {
        self.state
    }

    /// What taking a message does to a session.
    ///
    /// A session that is closing takes no message. Else the message is what
    /// was heard last of the client, and the outcome is that of
    /// `process_incoming_message`; an error closes the session.
    pub open spec fn took(
        before: Session,
        after: Session,
        msg: ClientMessage,
        now: Millis,
        r: Option<Result<Step, WorterbuchError>>,
    ) -> bool {
        &&& after.client_id() == before.client_id()
        &&& after.auth_required() == before.auth_required()
        &&& after.claims() == before.claims()
        &&& after.keepalive_timeout() == before.keepalive_timeout()
        &&& after.last_tx() == before.last_tx()
        &&& match r {
            None => before.state() is Closing && after == before,
            Some(outcome) => {
                &&& !(before.state() is Closing)
                &&& after.last_rx() == now
                &&& outcome_is(
                    before.client_id(),
                    msg,
                    before.auth_required(),
                    before.claims(),
                    outcome,
                )
                &&& after.state() == (if outcome is Err {
                    SessionState::Closing
                } else {
                    before.state()
                })
            },
        }
    }

    /// Takes a message that came in at the time `now`.
    pub fn on_message(&mut self, msg: ClientMessage, now: Millis) -> (r: Option<
        Result<Step, WorterbuchError>,
    >)
        requires
            old(self).wf(),
        ensures
            final(self).wf(),
            Self::took(*old(self), *final(self), msg, now, r),
    {
        match self.state {
            SessionState::Closing => None,
            _ => {
                self.last_rx = now;
                let outcome = process_incoming_message(
                    self.client_id,
                    msg,
                    self.auth_required,
                    &self.claims,
                );
                if outcome.is_err() {
                    self.state = SessionState::Closing;
                }
                Some(outcome)
            },
        }
    }

    /// Takes a frame that came in at the time `now`, as far as it could be
    /// read: the message that it holds, or nothing where it holds none.
    ///
    /// A frame that holds a message is taken as `on_message` takes the
    /// message. A frame that cannot be read closes the session, and there
    /// is no step to take.
    pub fn on_frame(&mut self, frame: Option<ClientMessage>, now: Millis) -> (r: Option<
        Result<Step, WorterbuchError>,
    >)
        requires
            old(self).wf(),
        ensures
            final(self).wf(),
            match frame {
                Some(msg) => Self::took(*old(self), *final(self), msg, now, r),
                None => {
                    &&& r is None
                    &&& final(self).state() is Closing
                    &&& final(self).client_id() == old(self).client_id()
                    &&& final(self).auth_required() == old(self).auth_required()
                    &&& final(self).claims() == old(self).claims()
                    &&& final(self).keepalive_timeout() == old(self).keepalive_timeout()
                    &&& final(self).last_rx() == old(self).last_rx()
                    &&& final(self).last_tx() == old(self).last_tx()
                },
            },
    {
        match frame {
            Some(msg) => self.on_message(msg, now),
            None => {
                self.state = SessionState::Closing;
                None
            },
        }
    }

    /// Notes that the client gave a sign of life at the time `now` that is
    /// no message: a frame without text. A session that is closing notes
    /// nothing.
    pub fn received(&mut self, now: Millis)
        requires
            old(self).wf(),
        ensures
            final(self).wf(),
            final(self).last_rx() == (if old(self).state() is Closing {
                old(self).last_rx()
            } else {
                now
            }),
            final(self).last_tx() == old(self).last_tx(),
            final(self).state() == old(self).state(),
            final(self).client_id() == old(self).client_id(),
            final(self).auth_required() == old(self).auth_required(),
            final(self).claims() == old(self).claims(),
            final(self).keepalive_timeout() == old(self).keepalive_timeout(),
    {
        match self.state {
            SessionState::Closing => {},
            _ => {
                self.last_rx = now;
            },
        }
    }

    /// Notes that the token of the client was good: the session has the
    /// claims now and is ready, and the client is told so.
    ///
    /// Only a session that awaits authentication takes claims; any other
    /// stays as it is and tells nothing.
    pub fn authenticated(&mut self, claims: JwtClaims) -> (msg: Option<ServerMessage>)
        requires
            old(self).wf(),
        ensures
            final(self).wf(),
            match msg {
                Some(m) => {
                    &&& old(self).state() is AwaitingAuth
                    &&& final(self).state() is Ready
                    &&& final(self).claims() == Some(claims)
                    &&& m == ServerMessage::Authenticated(Ack { transaction_id: 0 })
                    &&& final(self).client_id() == old(self).client_id()
                    &&& final(self).auth_required() == old(self).auth_required()
                    &&& final(self).keepalive_timeout() == old(self).keepalive_timeout()
                    &&& final(self).last_rx() == old(self).last_rx()
                    &&& final(self).last_tx() == old(self).last_tx()
                },
                None => !(old(self).state() is AwaitingAuth) && *final(self) == *old(self),
            },
    {
        match self.state {
            SessionState::AwaitingAuth => {
                self.claims = Some(claims);
                self.state = SessionState::Ready;
                Some(ServerMessage::Authenticated(Ack { transaction_id: 0 }))
            },
            _ => None,
        }
    }

    /// Notes that the token of the client was not good: the session closes,
    /// and the client is told why.
    pub fn authentication_failed(&mut self, e: AuthorizationError) -> (msg: ServerMessage)
        requires
            old(self).wf(),
        ensures
            final(self).wf(),
            final(self).state() is Closing,
            final(self).client_id() == old(self).client_id(),
            final(self).claims() == old(self).claims(),
            reports(ErrorView::Unauthorized(e@), 0, msg),
    {
        self.state = SessionState::Closing;
        let error = WorterbuchError::Unauthorized(e);
        let reply = handle_store_error(&error, 0);
        ServerMessage::ErrorReply(reply.unwrap())
    }

    /// Notes that a message went out to the client at the time `now`.
    pub fn sent(&mut self, now: Millis)
        requires
            old(self).wf(),
        ensures
            final(self).wf(),
            final(self).last_tx() == now,
            final(self).last_rx() == old(self).last_rx(),
            final(self).state() == old(self).state(),
            final(self).client_id() == old(self).client_id(),
            final(self).auth_required() == old(self).auth_required(),
            final(self).claims() == old(self).claims(),
            final(self).keepalive_timeout() == old(self).keepalive_timeout(),
    {
        self.last_tx = now;
    }

    /// What is due at the time `now`.
    ///
    /// A keepalive is due where nothing went out to the client for a
    /// second. The session is to be closed, and closes, where nothing came in
    /// from the client for the time of the keepalive timeout; short of that,
    /// a silence of two seconds or more is worth a warning. Nothing is due
    /// for a session that is closing.
    pub fn on_tick(&mut self, now: Millis) -> (tick: Tick)
        requires
            old(self).wf(),
        ensures
            final(self).wf(),
            final(self).client_id() == old(self).client_id(),
            final(self).auth_required() == old(self).auth_required(),
            final(self).claims() == old(self).claims(),
            final(self).keepalive_timeout() == old(self).keepalive_timeout(),
            final(self).last_rx() == old(self).last_rx(),
            final(self).last_tx() == old(self).last_tx(),
            tick == Self::due(*old(self), now),
            final(self).state() == (if tick.close {
                SessionState::Closing
            } else {
                old(self).state()
            }),
    {
        match self.state {
            SessionState::Closing => Tick { keepalive: false, inactive: None, close: false },
            _ => {
                match check_client_keepalive(self.last_rx, now, self.keepalive_timeout) {
                    Ok(inactive) => Tick {
                        keepalive: send_keepalive(self.last_tx, now),
                        inactive,
                        close: false,
                    },
                    Err(_) => {
                        self.state = SessionState::Closing;
                        Tick { keepalive: false, inactive: None, close: true }
                    },
                }
            },
        }
    }

    /// What is due for a session at the time `now`.
    pub open spec fn due(session: Session, now: Millis) -> Tick {
        let silent = elapsed(session.last_rx(), now);
        if session.state() is Closing {
            Tick { keepalive: false, inactive: None, close: false }
        } else if silent >= session.keepalive_timeout() {
            Tick { keepalive: false, inactive: None, close: true }
        } else {
            Tick {
                keepalive: elapsed(session.last_tx(), now) >= KEEPALIVE_INTERVAL,
                inactive: if silent >= INACTIVITY_WARNING {
                    Some(silent as u64)
                } else {
                    None
                },
                close: false,
            }
        }
    }

    /// Closes the session and gives the request that tells the engine that
    /// the client is gone.
    pub fn close(&mut self) -> (function: WbFunction)
        requires
            old(self).wf(),
        ensures
            final(self).wf(),
            final(self).state() is Closing,
            final(self).client_id() == old(self).client_id(),
            function == WbFunction::Disconnected(old(self).client_id()),
    {
        self.state = SessionState::Closing;
        WbFunction::Disconnected(self.client_id)
    }
}

} // verus!
