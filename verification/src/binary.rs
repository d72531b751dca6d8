//! The session over the binary framing: which request a message of a
//! client stands for, and which frame answers it.

use crate::codec;
use crate::codec::{
    encode_ack_message, encode_err_message, encode_handshake_message, encode_pstate_message,
    encode_state_message, pair_views, ClientMessage, Frame, KeyValuePair, KeyValueView,
    ProtocolVersion,
};
use crate::decode::{client_frame, decode_client_message, DecodeError};
use crate::error::{code_of, ErrorCode, ErrorView, WorterbuchError};
use crate::reply::{from_server, handle_store_error, is_from_server, metadata_of, metadata_text};
use crate::server::{PStateEvent, PStateEventView};
use crate::session::writer_name;
use crate::text::uuid_text;
use crate::worterbuch::{internal_client, WbAnswer, WbFunction};
use vstd::prelude::*;

verus! {

/// What is to be done with the bytes that have come from a client so far.
#[derive(Debug, PartialEq, Eq)]
pub enum Reading {
    /// The bytes start with this message, which takes so many of them.
    Message(ClientMessage, usize),
    /// The bytes are the start of a frame: wait for more.
    More,
    /// The bytes are no frame and will never be one: close the connection.
    Close,
}

/// Reads the next message from the bytes that have come from a client.
///
/// A frame that is not complete yet is waited for. Bytes that start no frame
/// of a client, or a frame with a text that is no UTF-8, end the connection.
pub fn read_next(bytes: &[u8]) -> (r: Reading)
    ensures
        match client_frame(bytes@) {
            Ok(frame) => r matches Reading::Message(msg, len) && msg@ == frame.0 && len == frame.1,
            Err(DecodeError::Incomplete) => r is More,
            Err(_) => r is Close,
        },
{
    match decode_client_message(bytes) {
        Ok(read) => Reading::Message(read.0, read.1),
        Err(DecodeError::Incomplete) => Reading::More,
        Err(_) => Reading::Close,
    }
}

/// The transaction id of a message of a client.
pub open spec fn transaction_of(msg: ClientMessage) -> u64 {
    match msg {
        ClientMessage::Get(m) => m.transaction_id,
        ClientMessage::PGet(m) => m.transaction_id,
        ClientMessage::SetValue(m) => m.transaction_id,
        ClientMessage::Subscribe(m) => m.transaction_id,
        ClientMessage::PSubscribe(m) => m.transaction_id,
        ClientMessage::Export(m) => m.transaction_id,
        ClientMessage::Import(m) => m.transaction_id,
        ClientMessage::Unsubscribe(m) => m.transaction_id,
    }
}

/// Whether `r` is what a message of the client `client_id` asks of the
/// engine.
///
/// A value is stored under the text of the client's id, which is never the
/// name under which the server itself writes. A subscription is named by
/// the client and the transaction, and starts with what is stored. Export
/// and import are not served over a connection.
pub open spec fn request_is(
    client_id: u128,
    msg: ClientMessage,
    r: Result<WbFunction, WorterbuchError>,
) -> bool {
    match msg {
        ClientMessage::Get(m) => r == Ok::<WbFunction, WorterbuchError>(WbFunction::Get(m.key)),
        ClientMessage::PGet(m) => r == Ok::<WbFunction, WorterbuchError>(
            WbFunction::PGet(m.request_pattern),
        ),
        ClientMessage::SetValue(m) => match r {
            Ok(WbFunction::SetValue(key, value, client)) => key == m.key && value == m.value
                && client@ == uuid_text(client_id) && client@ != internal_client(),
            _ => false,
        },
        ClientMessage::Subscribe(m) => r == Ok::<WbFunction, WorterbuchError>(
            WbFunction::Subscribe(client_id, m.transaction_id, m.key, m.unique, false),
        ),
        ClientMessage::PSubscribe(m) => r == Ok::<WbFunction, WorterbuchError>(
            WbFunction::PSubscribe(
                client_id,
                m.transaction_id,
                m.request_pattern,
                m.unique,
                false,
            ),
        ),
        ClientMessage::Unsubscribe(m) => r == Ok::<WbFunction, WorterbuchError>(
            WbFunction::Unsubscribe(client_id, m.transaction_id),
        ),
        _ => match r {
            Err(e) => e@ == ErrorView::Other(
                "not available over this connection"@,
                "export and import"@,
            ),
            _ => false,
        },
    }
}

/// The request that a message of the client `client_id` stands for, or the
/// refusal of the message.
pub fn binary_request(client_id: u128, msg: ClientMessage) -> (r: Result<
    WbFunction,
    WorterbuchError,
>)
    ensures
        request_is(client_id, msg, r),
{
    match msg {
        ClientMessage::Get(m) => Ok(WbFunction::Get(m.key)),
        ClientMessage::PGet(m) => Ok(WbFunction::PGet(m.request_pattern)),
        ClientMessage::SetValue(m) => {
            let name = writer_name(client_id);
            Ok(WbFunction::SetValue(m.key, m.value, name))
        },
        ClientMessage::Subscribe(m) => Ok(
            WbFunction::Subscribe(client_id, m.transaction_id, m.key, m.unique, false),
        ),
        ClientMessage::PSubscribe(m) => Ok(
            WbFunction::PSubscribe(
                client_id,
                m.transaction_id,
                m.request_pattern,
                m.unique,
                false,
            ),
        ),
        ClientMessage::Unsubscribe(m) => Ok(WbFunction::Unsubscribe(client_id, m.transaction_id)),
        _ => Err(
            WorterbuchError::Other(
                "not available over this connection".to_owned(),
                "export and import".to_owned(),
            ),
        ),
    }
}

/// The number under which a kind of error goes on the wire: its own where
/// it has one, else that of the kind for all other errors.
pub open spec fn wire_code(code: ErrorCode) -> u8 {
    match code {
        ErrorCode::IllegalWildcard => 0x00,
        ErrorCode::IllegalMultiWildcard => 0x01,
        ErrorCode::MultiWildcardAtIllegalPosition => 0x02,
        ErrorCode::IoError => 0x03,
        ErrorCode::SerdeError => 0x04,
        ErrorCode::NoSuchValue => 0x05,
        ErrorCode::NotSubscribed => 0x06,
        ErrorCode::ProtocolNegotiationFailed => 0x07,
        ErrorCode::InvalidServerResponse => 0x08,
        _ => 0xFF,
    }
}

/// The frame that answers `msg`, given what the engine answered.
///
/// A value is answered by a state, pairs by a pattern state, and a stored
/// value, a subscription and its end by an acknowledgement. A refusal is
/// answered by an error frame with the number of the kind of the error and
/// the metadata of the error message. There is no frame where the answer
/// does not fit the message and where the error is none that the engine
/// gives.
pub open spec fn reply_frame(msg: ClientMessage, answer: Result<WbAnswer, WorterbuchError>) -> Option<
    Frame,
> {
    let transaction_id = transaction_of(msg);
    match answer {
        Err(e) => if from_server(e@) {
            None
        } else {
            Some(
                Frame::ErrorReply {
                    transaction_id,
                    error_code: wire_code(code_of(e@)),
                    metadata: metadata_text(metadata_of(e@, transaction_id)),
                },
            )
        },
        Ok(a) => match (msg, a) {
            (ClientMessage::Get(_), WbAnswer::Value(key, value)) => Some(
                Frame::State { transaction_id, key_value: KeyValueView { key: key@, value: value@ } },
            ),
            (ClientMessage::PGet(m), WbAnswer::Pairs(pairs)) => Some(
                Frame::PState {
                    transaction_id,
                    request_pattern: m.request_pattern@,
                    key_value_pairs: pair_views(pairs@),
                },
            ),
            (ClientMessage::SetValue(_), WbAnswer::Done) => Some(Frame::Ack { transaction_id }),
            (ClientMessage::Unsubscribe(_), WbAnswer::Done) => Some(Frame::Ack { transaction_id }),
            (ClientMessage::Subscribe(_), WbAnswer::Subscribed(_)) => Some(
                Frame::Ack { transaction_id },
            ),
            (ClientMessage::PSubscribe(_), WbAnswer::Subscribed(_)) => Some(
                Frame::Ack { transaction_id },
            ),
            _ => None,
        },
    }
}

/// Whether `bytes` is what goes on the wire for `frame`: the bytes of the
/// frame, and nothing where there is no frame or where a field of the frame
/// is too long for its length field.
pub open spec fn framed(frame: Option<Frame>, bytes: Option<Vec<u8>>) -> bool {
    match (frame, bytes) {
        (Some(f), Some(b)) => f.encode_error() is None && b@ == f.encoded(),
        (Some(f), None) => f.encode_error() is Some,
        (None, Some(_)) => false,
        (None, None) => true,
    }
}

/// The bytes that answer `msg`, given what the engine answered.
pub fn binary_reply(msg: &ClientMessage, answer: Result<WbAnswer, WorterbuchError>) -> (bytes: Option<
    Vec<u8>,
>)
    ensures
        framed(reply_frame(*msg, answer), bytes),
{
    let transaction_id = msg.transaction_id();
    assert(transaction_id == transaction_of(*msg));
    let encoded = match answer {
        Err(e) => {
            if is_from_server(&e) {
                return None;
            }
            let reply = handle_store_error(&e, transaction_id).unwrap();
            let error_code = match reply.error_code.number() {
                Some(n) => n,
                None => 0xFF,
            };
            encode_err_message(
                &codec::ErrorReply { transaction_id, error_code, metadata: reply.metadata },
            )
        },
        Ok(a) => match (msg, a) {
            (ClientMessage::Get(_), WbAnswer::Value(key, value)) => encode_state_message(
                &codec::State { transaction_id, key_value: KeyValuePair { key, value } },
            ),
            (ClientMessage::PGet(m), WbAnswer::Pairs(key_value_pairs)) => encode_pstate_message(
                &codec::PState {
                    transaction_id,
                    request_pattern: m.request_pattern.clone(),
                    key_value_pairs,
                },
            ),
            (ClientMessage::SetValue(_), WbAnswer::Done) => encode_ack_message(
                &codec::Ack { transaction_id },
            ),
            (ClientMessage::Unsubscribe(_), WbAnswer::Done) => encode_ack_message(
                &codec::Ack { transaction_id },
            ),
            (ClientMessage::Subscribe(_), WbAnswer::Subscribed(_)) => encode_ack_message(
                &codec::Ack { transaction_id },
            ),
            (ClientMessage::PSubscribe(_), WbAnswer::Subscribed(_)) => encode_ack_message(
                &codec::Ack { transaction_id },
            ),
            _ => {
                return None;
            },
        },
    };
    match encoded {
        Ok(bytes) => Some(bytes),
        Err(_) => None,
    }
}

/// The frame that tells the client of an event of a pattern subscription:
/// a pattern state with the pairs. The framing has no frame for deleted
/// keys.
pub open spec fn event_frame(transaction_id: u64, request_pattern: Seq<char>, event: PStateEventView) -> Option<
    Frame,
> {
    match event {
        PStateEventView::KeyValuePairs(key_value_pairs) => Some(
            Frame::PState { transaction_id, request_pattern, key_value_pairs },
        ),
        PStateEventView::Deleted(_) => None,
    }
}

/// The bytes that tell the client of an event of the pattern subscription
/// `transaction_id`.
pub fn binary_event(transaction_id: u64, request_pattern: &str, event: PStateEvent) -> (bytes: Option<
    Vec<u8>,
>)
    ensures
        framed(event_frame(transaction_id, request_pattern@, event@), bytes),
{
    match event {
        PStateEvent::KeyValuePairs(key_value_pairs) => {
            let state = codec::PState {
                transaction_id,
                request_pattern: request_pattern.to_owned(),
                key_value_pairs,
            };
            match encode_pstate_message(&state) {
                Ok(bytes) => Some(bytes),
                Err(_) => None,
            }
        },
        PStateEvent::Deleted(_) => None,
    }
}

/// The bytes that tell the client of one pair of an event of the key
/// subscription `transaction_id`: a state with the pair.
pub fn binary_state(transaction_id: u64, key_value: KeyValuePair) -> (bytes: Option<Vec<u8>>)
    ensures
        framed(Some(Frame::State { transaction_id, key_value: key_value@ }), bytes),
{
    match encode_state_message(&codec::State { transaction_id, key_value }) {
        Ok(bytes) => Some(bytes),
        Err(_) => None,
    }
}

/// The bytes with which the server opens a connection: a handshake with
/// the version of the protocol that the engine speaks and the three
/// characters of the syntax of keys.
pub fn opening_frame(version: ProtocolVersion) -> (bytes: Option<Vec<u8>>)
    ensures
        framed(
            Some(
                Frame::Handshake {
                    supported_protocol_versions: seq![version],
                    separator: '/',
                    wildcard: '?',
                    multi_wildcard: '#',
                },
            ),
            bytes,
        ),
{
    let mut supported_protocol_versions: Vec<ProtocolVersion> = Vec::new();
    supported_protocol_versions.push(version);
    assert(supported_protocol_versions@ =~= seq![version]);
    let handshake = codec::Handshake {
        supported_protocol_versions,
        separator: '/',
        wildcard: '?',
        multi_wildcard: '#',
    };
    match encode_handshake_message(&handshake) {
        Ok(bytes) => Some(bytes),
        Err(_) => None,
    }
}

/// The pairs that an event of a key subscription tells of: those of the
/// event, and none where it tells of deleted keys, for which the framing
/// has no frame.
pub open spec fn told_pairs(event: PStateEventView) -> Seq<KeyValueView> {
    match event {
        PStateEventView::KeyValuePairs(pairs) => pairs,
        PStateEventView::Deleted(_) => Seq::empty(),
    }
}

/// The bytes that tell the client of an event of the key subscription
/// `transaction_id`: for each pair of the event, in order, a state with the
/// pair, or nothing where the pair is too long for a frame.
pub fn binary_states(transaction_id: u64, event: PStateEvent) -> (frames: Vec<Option<Vec<u8>>>)
    ensures
        frames@.len() == told_pairs(event@).len(),
        forall|i: int|
            0 <= i < frames@.len() ==> framed(
                Some(Frame::State { transaction_id, key_value: told_pairs(event@)[i] }),
                #[trigger] frames@[i],
            ),
{
    let mut frames: Vec<Option<Vec<u8>>> = Vec::new();
    match event {
        PStateEvent::KeyValuePairs(pairs) => {
            let ghost all = pairs@;
            for pair in it: pairs
                invariant
                    it.seq() == all,
                    frames@.len() == it.index(),
                    forall|i: int|
                        0 <= i < frames@.len() ==> framed(
                            Some(Frame::State { transaction_id, key_value: all[i]@ }),
                            #[trigger] frames@[i],
                        ),
            {
                let frame = binary_state(transaction_id, pair);
                frames.push(frame);
            }
            assert forall|i: int| 0 <= i < frames@.len() implies framed(
                Some(Frame::State { transaction_id, key_value: told_pairs(event@)[i] }),
                #[trigger] frames@[i],
            ) by {
                assert(told_pairs(event@)[i] == all[i]@);
            }
        },
        PStateEvent::Deleted(_) => {},
    }
    frames
}

} // verus!
