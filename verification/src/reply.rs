//! The answers of the server: what goes back to the client for a request.

use crate::client::ClientMessage;
use crate::codec::KeyValuePair;
use crate::key::path_view;
use crate::worterbuch::WbAnswer;
use crate::error::{
    authorization_text, code_of, privilege_text, ErrorCode, ErrorView, WorterbuchError,
};
use crate::server::{
    pair_views, single_events, state_event_views, Ack, ErrorReply, LsState, PState, PStateEvent,
    PStateEventView, ServerMessage, State, StateEvent, StateEventView, TransactionId,
};
use crate::text::{concat2, concat3, concat5, decimal, decimal_string, json_string, json_text};
use vstd::prelude::*;

verus! {

/// Where the metadata of an error message comes from.
#[derive(Debug, Clone, PartialEq, Eq)]
pub enum Metadata {
    /// A text that is put on the wire as a JSON string.
    Quoted(String),
    /// A cause and a note: put on the wire as a JSON object with the members
    /// `cause` and `meta`, in this order.
    Cause(String, String),
    /// A text that is put on the wire as it is.
    Plain(String),
}

/// Where the metadata of an error message comes from, as a mathematical
/// value.
pub enum MetadataView {
    Quoted(Seq<char>),
    Cause(Seq<char>, Seq<char>),
    Plain(Seq<char>),
}

impl View for Metadata {
    type V = MetadataView;

    open spec fn view(&self) -> MetadataView {
        match self {
            Metadata::Quoted(text) => MetadataView::Quoted(text@),
            Metadata::Cause(cause, meta) => MetadataView::Cause(cause@, meta@),
            Metadata::Plain(text) => MetadataView::Plain(text@),
        }
    }
}

/// What the metadata of the error message for `e` says, for the errors
/// that the engine can give.
pub open spec fn metadata_of(e: ErrorView, transaction_id: u64) -> MetadataView {
    match e {
        ErrorView::IllegalWildcard(pattern) => MetadataView::Quoted(pattern),
        ErrorView::IllegalMultiWildcard(pattern) => MetadataView::Quoted(pattern),
        ErrorView::MultiWildcardAtIllegalPosition(pattern) => MetadataView::Quoted(pattern),
        ErrorView::NoSuchValue(key) => MetadataView::Quoted("no value for key '"@ + key + "'"@),
        ErrorView::NotSubscribed => MetadataView::Quoted(
            "no subscription found for transaction id '"@ + decimal(transaction_id as nat) + "'"@,
        ),
        ErrorView::IoError(cause, meta) => MetadataView::Cause(cause, meta),
        ErrorView::SerDeError(cause, meta) => MetadataView::Cause(cause, meta),
        ErrorView::Other(cause, meta) => MetadataView::Cause(cause, meta),
        ErrorView::ProtocolNegotiationFailed => MetadataView::Quoted(
            "server does not implement any of the protocl versions supported by this client"@,
        ),
        ErrorView::ReadOnlyKey(key) => MetadataView::Quoted(
            "tried to delete read only key '"@ + key + "'"@,
        ),
        ErrorView::AuthenticationFailed => MetadataView::Quoted("client failed to authenticate"@),
        ErrorView::AuthenticationRequired(op) => MetadataView::Quoted(
            "operation "@ + privilege_text(op) + " requires authentication"@,
        ),
        ErrorView::AlreadyAuthenticated => MetadataView::Quoted(
            "handshake has already been completed, cannot do it again"@,
        ),
        ErrorView::Unauthorized(e) => MetadataView::Plain(authorization_text(e)),
        ErrorView::ServerResponse(_, _, metadata) => MetadataView::Plain(metadata),
        ErrorView::InvalidServerResponse(meta) => MetadataView::Plain(meta),
    }
}

/// The text of the metadata, given the JSON strings of its parts: of the
/// text, or of the cause and the note.
pub open spec fn assembled(metadata: MetadataView, first: Seq<char>, second: Seq<char>) -> Seq<char> {
    match metadata {
        MetadataView::Quoted(_) => first,
        MetadataView::Cause(_, _) => "{\"cause\":"@ + first + ",\"meta\":"@ + second + "}"@,
        MetadataView::Plain(text) => text,
    }
}

/// The text of the metadata on the wire.
pub open spec fn metadata_text(metadata: MetadataView) -> Seq<char> {
    match metadata {
        MetadataView::Quoted(text) => assembled(metadata, json_text(text), Seq::empty()),
        MetadataView::Cause(cause, meta) => assembled(metadata, json_text(cause), json_text(meta)),
        MetadataView::Plain(_) => assembled(metadata, Seq::empty(), Seq::empty()),
    }
}

/// The engine does not give this error: it is one that a client makes of
/// what a server sent.
pub open spec fn from_server(e: ErrorView) -> bool {
    e is ServerResponse || e is InvalidServerResponse
}

/// What the metadata of the error message for `e` says.
pub fn metadata_for(e: &WorterbuchError, transaction_id: TransactionId) -> (metadata: Metadata)
    ensures
        metadata@ == metadata_of(e@, transaction_id),
{
    match e {
        WorterbuchError::IllegalWildcard(pattern) => Metadata::Quoted(pattern.clone()),
        WorterbuchError::IllegalMultiWildcard(pattern) => Metadata::Quoted(pattern.clone()),
        WorterbuchError::MultiWildcardAtIllegalPosition(pattern) => Metadata::Quoted(
            pattern.clone(),
        ),
        WorterbuchError::NoSuchValue(key) => Metadata::Quoted(
            concat3("no value for key '", key.as_str(), "'"),
        ),
        WorterbuchError::NotSubscribed => {
            let tid = decimal_string(transaction_id);
            Metadata::Quoted(concat3("no subscription found for transaction id '", tid.as_str(), "'"))
        },
        WorterbuchError::IoError(cause, meta) => Metadata::Cause(cause.clone(), meta.clone()),
        WorterbuchError::SerDeError(cause, meta) => Metadata::Cause(cause.clone(), meta.clone()),
        WorterbuchError::Other(cause, meta) => Metadata::Cause(cause.clone(), meta.clone()),
        WorterbuchError::ProtocolNegotiationFailed => Metadata::Quoted(
            "server does not implement any of the protocl versions supported by this client".to_owned(),
        ),
        WorterbuchError::ReadOnlyKey(key) => Metadata::Quoted(
            concat3("tried to delete read only key '", key.as_str(), "'"),
        ),
        WorterbuchError::AuthenticationFailed => Metadata::Quoted(
            "client failed to authenticate".to_owned(),
        ),
        WorterbuchError::AuthenticationRequired(op) => Metadata::Quoted(
            concat3("operation ", op.name(), " requires authentication"),
        ),
        WorterbuchError::AlreadyAuthenticated => Metadata::Quoted(
            "handshake has already been completed, cannot do it again".to_owned(),
        ),
        WorterbuchError::Unauthorized(auth_err) => Metadata::Plain(auth_err.message()),
        WorterbuchError::ServerResponse(reply) => Metadata::Plain(reply.metadata.clone()),
        WorterbuchError::InvalidServerResponse(meta) => Metadata::Plain(meta.clone()),
    }
}

/// Puts the metadata together from the JSON strings of its parts.
pub fn assemble(metadata: &Metadata, first: &str, second: &str) -> (text: String)
    ensures
        text@ == assembled(metadata@, first@, second@),
{
    match metadata {
        Metadata::Quoted(_) => first.to_owned(),
        Metadata::Cause(_, _) => concat5("{\"cause\":", first, ",\"meta\":", second, "}"),
        Metadata::Plain(text) => text.clone(),
    }
}

/// The text of the metadata on the wire. There always is one.
pub fn encode_metadata(metadata: &Metadata) -> (text: Option<String>)
    ensures
        text matches Some(t) && t@ == metadata_text(metadata@),
{
    match metadata {
        Metadata::Quoted(text) => match json_string(text.as_str()) {
            Some(first) => Some(assemble(metadata, first.as_str(), "")),
            None => None,
        },
        Metadata::Cause(cause, meta) => match json_string(cause.as_str()) {
            Some(first) => match json_string(meta.as_str()) {
                Some(second) => Some(assemble(metadata, first.as_str(), second.as_str())),
                None => None,
            },
            None => None,
        },
        Metadata::Plain(_) => {
            let text = assemble(metadata, "", "");
            Some(text)
        },
    }
}

/// The error message that tells a client why its request was refused:
/// one message for every error that the engine gives, with the transaction
/// id of the request and the code of the error.
///
/// The errors that a client makes of what a server sent have no such
/// message.
pub fn handle_store_error(e: &WorterbuchError, transaction_id: TransactionId) -> (reply: Option<
    ErrorReply,
>)
    requires
        !from_server(e@),
    ensures
        reply matches Some(msg) && msg.error_code == code_of(e@) && msg.transaction_id
            == transaction_id && msg.metadata@ == metadata_text(
            metadata_of(e@, transaction_id),
        ),
{
    let error_code = ErrorCode::of(e);
    let metadata = metadata_for(e, transaction_id);
    match encode_metadata(&metadata) {
        Some(metadata) => Some(ErrorReply { error_code, transaction_id, metadata }),
        None => None,
    }
}

/// The event of a pattern subscription as the message for the client.
pub fn forward_pstate(transaction_id: TransactionId, request_pattern: &str, event: PStateEvent) -> (msg:
    ServerMessage)
    ensures
        msg matches ServerMessage::PState(state) && state.transaction_id == transaction_id
            && state.request_pattern@ == request_pattern@ && state.event == event,
{
    ServerMessage::PState(
        PState { transaction_id, request_pattern: request_pattern.to_owned(), event },
    )
}

/// The event of a key subscription as the messages for the client: one
/// state message for each pair or deleted key, in order.
pub fn forward_state(transaction_id: TransactionId, event: PStateEvent) -> (msgs: Vec<ServerMessage>)
    ensures
        msgs@.len() == single_events(event@).len(),
        forall|i: int|
            0 <= i < msgs@.len() ==> (#[trigger] msgs@[i] matches ServerMessage::State(state)
                && state.transaction_id == transaction_id && state.event@ == single_events(
                event@,
            )[i]),
{
    let events = event.into_state_events();
    let ghost all = events@;
    let mut msgs: Vec<ServerMessage> = Vec::new();
    for event in it: events
        invariant
            it.seq() == all,
            msgs@.len() == it.index(),
            forall|i: int|
                0 <= i < msgs@.len() ==> (#[trigger] msgs@[i] matches ServerMessage::State(state)
                    && state.transaction_id == transaction_id && state.event == all[i]),
    {
        msgs.push(ServerMessage::State(State { transaction_id, event }));
    }
    proof {
        assert forall|i: int| 0 <= i < msgs@.len() implies (
        #[trigger] msgs@[i] matches ServerMessage::State(state) && state.transaction_id
            == transaction_id && state.event@ == single_events(event@)[i]) by {
            assert(state_event_views(all)[i] == all[i]@);
        }
    }
    msgs
}

/// The keys of a list of pairs, in order.
pub open spec fn keys_of(pairs: Seq<KeyValuePair>) -> Seq<Seq<char>> {
    pairs.map_values(|p: KeyValuePair| p.key@)
}

/// The keys of a list of pairs.
pub fn pair_keys(pairs: &Vec<KeyValuePair>) -> (keys: Vec<String>)
    ensures
        path_view(keys@) == keys_of(pairs@),
{
    let mut keys: Vec<String> = Vec::new();
    let mut i: usize = 0;
    while i < pairs.len()
        invariant
            i <= pairs.len(),
            path_view(keys@) == keys_of(pairs@).subrange(0, i as int),
        decreases pairs.len() - i,
    {
        let key = pairs[i].key.clone();
        let ghost before = path_view(keys@);
        keys.push(key);
        assert(path_view(keys@) =~= before.push(pairs[i as int].key@));
        i += 1;
        assert(path_view(keys@) =~= keys_of(pairs@).subrange(0, i as int));
    }
    assert(keys_of(pairs@).subrange(0, i as int) =~= keys_of(pairs@));
    keys
}

/// Whether `msg` is the answer that `request` gets for what the engine
/// answered.
///
/// A value is answered by a state, pairs by a pattern state, a deleted pair
/// by a state that names the key, deleted pairs by a pattern state that
/// names the keys, child names by a list state, an agreed version by a
/// handshake, and everything else that went well by an acknowledgement.
pub open spec fn answers(request: ClientMessage, answer: WbAnswer, msg: ServerMessage) -> bool {
    let transaction_id = request.tid();
    match (request, answer) {
        (ClientMessage::Get(_), WbAnswer::Value(key, value)) => msg == ServerMessage::State(
            State { transaction_id, event: StateEvent::KeyValue(KeyValuePair { key, value }) },
        ),
        (ClientMessage::PGet(m), WbAnswer::Pairs(pairs)) => match msg {
            ServerMessage::PState(state) => {
                &&& state.transaction_id == transaction_id
                &&& state.request_pattern@ == m.request_pattern@
                &&& state.event == PStateEvent::KeyValuePairs(pairs)
            },
            _ => false,
        },
        (ClientMessage::Delete(_), WbAnswer::Deleted(pair)) => msg == ServerMessage::State(
            State { transaction_id, event: StateEvent::Deleted(pair.key) },
        ),
        (ClientMessage::PDelete(m), WbAnswer::Pairs(pairs)) => match msg {
            ServerMessage::PState(state) => {
                &&& state.transaction_id == transaction_id
                &&& state.request_pattern@ == m.request_pattern@
                &&& state.event@ == PStateEventView::Deleted(keys_of(pairs@))
            },
            _ => false,
        },
        (ClientMessage::Ls(_), WbAnswer::Children(children)) => msg == ServerMessage::LsState(
            LsState { transaction_id, children },
        ),
        (ClientMessage::SetValue(_), WbAnswer::Done) => msg == ServerMessage::Ack(
            Ack { transaction_id },
        ),
        (ClientMessage::Publish(_), WbAnswer::Done) => msg == ServerMessage::Ack(
            Ack { transaction_id },
        ),
        (ClientMessage::Unsubscribe(_), WbAnswer::Done) => msg == ServerMessage::Ack(
            Ack { transaction_id },
        ),
        (ClientMessage::UnsubscribeLs(_), WbAnswer::Done) => msg == ServerMessage::Ack(
            Ack { transaction_id },
        ),
        (ClientMessage::Subscribe(_), WbAnswer::Subscribed(_)) => msg == ServerMessage::Ack(
            Ack { transaction_id },
        ),
        (ClientMessage::PSubscribe(_), WbAnswer::Subscribed(_)) => msg == ServerMessage::Ack(
            Ack { transaction_id },
        ),
        (ClientMessage::SubscribeLs(_), WbAnswer::Subscribed(_)) => msg == ServerMessage::Ack(
            Ack { transaction_id },
        ),
        (ClientMessage::HandshakeRequest(_), WbAnswer::Agreed(handshake)) => msg
            == ServerMessage::Handshake(handshake),
        _ => false,
    }
}

/// Whether `msg` is the error message for `e` in the transaction
/// `transaction_id`.
pub open spec fn reports(e: ErrorView, transaction_id: u64, msg: ServerMessage) -> bool {
    match msg {
        ServerMessage::ErrorReply(reply) => {
            &&& reply.error_code == code_of(e)
            &&& reply.transaction_id == transaction_id
            &&& reply.metadata@ == metadata_text(metadata_of(e, transaction_id))
        },
        _ => false,
    }
}

/// There is an answer for `request` to what the engine answered.
pub open spec fn answerable(request: ClientMessage, answer: WbAnswer) -> bool {
    match (request, answer) {
        (ClientMessage::Get(_), WbAnswer::Value(_, _)) => true,
        (ClientMessage::PGet(_), WbAnswer::Pairs(_)) => true,
        (ClientMessage::Delete(_), WbAnswer::Deleted(_)) => true,
        (ClientMessage::PDelete(_), WbAnswer::Pairs(_)) => true,
        (ClientMessage::Ls(_), WbAnswer::Children(_)) => true,
        (ClientMessage::SetValue(_), WbAnswer::Done) => true,
        (ClientMessage::Publish(_), WbAnswer::Done) => true,
        (ClientMessage::Unsubscribe(_), WbAnswer::Done) => true,
        (ClientMessage::UnsubscribeLs(_), WbAnswer::Done) => true,
        (ClientMessage::Subscribe(_), WbAnswer::Subscribed(_)) => true,
        (ClientMessage::PSubscribe(_), WbAnswer::Subscribed(_)) => true,
        (ClientMessage::SubscribeLs(_), WbAnswer::Subscribed(_)) => true,
        (ClientMessage::HandshakeRequest(_), WbAnswer::Agreed(_)) => true,
        _ => false,
    }
}

/// The message that goes back to the client for `request`, given what the
/// engine answered.
///
/// A refusal is answered by an error message. There is no message where
/// the answer does not fit the request and where the error is none that
/// the engine gives: the session is to be closed then.
pub fn respond(request: &ClientMessage, answer: Result<WbAnswer, WorterbuchError>) -> (msg: Option<
    ServerMessage,
>)
    ensures
        match answer {
            Ok(a) => match msg {
                Some(m) => answers(*request, a, m),
                None => !answerable(*request, a),
            },
            Err(e) => match msg {
                Some(m) => !from_server(e@) && reports(e@, request.tid(), m),
                None => from_server(e@),
            },
        },
{
    let transaction_id = request.transaction_id();
    match answer {
        Err(e) => {
            if is_from_server(&e) {
                None
            } else {
                match handle_store_error(&e, transaction_id) {
                    Some(reply) => Some(ServerMessage::ErrorReply(reply)),
                    None => None,
                }
            }
        },
        Ok(a) => match (request, a) {
            (ClientMessage::Get(_), WbAnswer::Value(key, value)) => Some(
                ServerMessage::State(
                    State {
                        transaction_id,
                        event: StateEvent::KeyValue(KeyValuePair { key, value }),
                    },
                ),
            ),
            (ClientMessage::PGet(m), WbAnswer::Pairs(pairs)) => Some(
                ServerMessage::PState(
                    PState {
                        transaction_id,
                        request_pattern: m.request_pattern.clone(),
                        event: PStateEvent::KeyValuePairs(pairs),
                    },
                ),
            ),
            (ClientMessage::Delete(_), WbAnswer::Deleted(pair)) => Some(
                ServerMessage::State(State { transaction_id, event: StateEvent::Deleted(pair.key) }),
            ),
            (ClientMessage::PDelete(m), WbAnswer::Pairs(pairs)) => {
                let keys = pair_keys(&pairs);
                Some(
                    ServerMessage::PState(
                        PState {
                            transaction_id,
                            request_pattern: m.request_pattern.clone(),
                            event: PStateEvent::Deleted(keys),
                        },
                    ),
                )
            },
            (ClientMessage::Ls(_), WbAnswer::Children(children)) => Some(
                ServerMessage::LsState(LsState { transaction_id, children }),
            ),
            (ClientMessage::SetValue(_), WbAnswer::Done) => Some(
                ServerMessage::Ack(Ack { transaction_id }),
            ),
            (ClientMessage::Publish(_), WbAnswer::Done) => Some(
                ServerMessage::Ack(Ack { transaction_id }),
            ),
            (ClientMessage::Unsubscribe(_), WbAnswer::Done) => Some(
                ServerMessage::Ack(Ack { transaction_id }),
            ),
            (ClientMessage::UnsubscribeLs(_), WbAnswer::Done) => Some(
                ServerMessage::Ack(Ack { transaction_id }),
            ),
            (ClientMessage::Subscribe(_), WbAnswer::Subscribed(_)) => Some(
                ServerMessage::Ack(Ack { transaction_id }),
            ),
            (ClientMessage::PSubscribe(_), WbAnswer::Subscribed(_)) => Some(
                ServerMessage::Ack(Ack { transaction_id }),
            ),
            (ClientMessage::SubscribeLs(_), WbAnswer::Subscribed(_)) => Some(
                ServerMessage::Ack(Ack { transaction_id }),
            ),
            (ClientMessage::HandshakeRequest(_), WbAnswer::Agreed(handshake)) => Some(
                ServerMessage::Handshake(handshake),
            ),
            _ => None,
        },
    }
}

/// Whether the error is one that a client makes of what a server sent.
pub fn is_from_server(e: &WorterbuchError) -> (r: bool)
    ensures
        r == from_server(e@),
{
    match e {
        WorterbuchError::ServerResponse(_) => true,
        WorterbuchError::InvalidServerResponse(_) => true,
        _ => false,
    }
}

} // verus!
