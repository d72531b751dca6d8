//! Version 0 of the binary framing, still spoken by old clients.
//!
//! It knows seven messages. The layout rules are those of the current
//! framing: a type byte, the transaction id, the lengths of the variable
//! fields, then the fields. All integers are big-endian.

use crate::codec::{head, length_field, pair_error, pair_lengths, pair_payload, KeyValueView};
use crate::encoding::{be_bytes, push_be, push_str, utf8};
use crate::error::{EncodeError, EncodeResult};
use vstd::prelude::*;

verus! {

pub type MessageType = u8;

pub type TransactionId = u64;

pub type RequestPattern = String;

pub type Key = String;

pub type Value = String;

pub type KeyValuePairs = Vec<(String, String)>;

pub type ErrorCode = u8;

pub type MetaData = String;

pub type RequestPatternLength = u16;

pub type KeyLength = u16;

pub type ValueLength = u32;

pub type MetaDataLength = u32;

pub type NumKeyValuePairs = u32;

pub const GET: MessageType = 0b00000000;

pub const SET: MessageType = 0b00000001;

pub const SUB: MessageType = 0b00000010;

pub const STA: MessageType = 0b10000000;

pub const ACK: MessageType = 0b10000001;

pub const EVE: MessageType = 0b10000010;

pub const ERR: MessageType = 0b10000011;

#[derive(Debug, Clone, PartialEq, Eq, Hash)]
pub enum Message {
    // client messages
    Get(Get),
    SetValue(SetValue),
    Subscribe(Subscribe),
    // server messages
    State(State),
    Ack(Ack),
    Event(Event),
    ErrorReply(ErrorReply),
}

#[derive(Debug, Clone, PartialEq, Eq, Hash)]
pub struct Get {
    pub transaction_id: TransactionId,
    pub request_pattern: RequestPattern,
}

#[derive(Debug, Clone, PartialEq, Eq, Hash)]
pub struct SetValue {
    pub transaction_id: TransactionId,
    pub key: Key,
    pub value: Value,
}

#[derive(Debug, Clone, PartialEq, Eq, Hash)]
pub struct Subscribe {
    pub transaction_id: TransactionId,
    pub request_pattern: RequestPattern,
}

#[derive(Debug, Clone, PartialEq, Eq, Hash)]
pub struct State {
    pub transaction_id: TransactionId,
    pub request_pattern: RequestPattern,
    pub key_value_pairs: KeyValuePairs,
}

#[derive(Debug, Clone, Copy, PartialEq, Eq, Hash, Structural)]
pub struct Ack {
    pub transaction_id: TransactionId,
}

#[derive(Debug, Clone, PartialEq, Eq, Hash)]
pub struct Event {
    pub transaction_id: TransactionId,
    pub request_pattern: RequestPattern,
    pub key: Key,
    pub value: Value,
}

#[derive(Debug, Clone, PartialEq, Eq, Hash)]
pub struct ErrorReply {
    pub transaction_id: TransactionId,
    pub error_code: ErrorCode,
    pub metadata: MetaData,
}

/// What a version 0 message says: the mathematical value that its frame
/// layout is defined on.
pub enum Packet {
    Get { transaction_id: u64, request_pattern: Seq<char> },
    SetValue { transaction_id: u64, key: Seq<char>, value: Seq<char> },
    Subscribe { transaction_id: u64, request_pattern: Seq<char> },
    State { transaction_id: u64, request_pattern: Seq<char>, key_value_pairs: Seq<KeyValueView> },
    Ack { transaction_id: u64 },
    Event { transaction_id: u64, request_pattern: Seq<char>, key: Seq<char>, value: Seq<char> },
    ErrorReply { transaction_id: u64, error_code: u8, metadata: Seq<char> },
}

/// The views of a list of key and value tuples, in order.
pub open spec fn tuple_views(pairs: Seq<(String, String)>) -> Seq<KeyValueView> {
    pairs.map_values(|p: (String, String)| KeyValueView { key: p.0@, value: p.1@ })
}

impl View for Get {
    type V = Packet;

    open spec fn view(&self) -> Packet {
        Packet::Get { transaction_id: self.transaction_id, request_pattern: self.request_pattern@ }
    }
}

impl View for SetValue {
    type V = Packet;

    open spec fn view(&self) -> Packet {
        Packet::SetValue { transaction_id: self.transaction_id, key: self.key@, value: self.value@ }
    }
}

impl View for Subscribe {
    type V = Packet;

    open spec fn view(&self) -> Packet {
        Packet::Subscribe {
            transaction_id: self.transaction_id,
            request_pattern: self.request_pattern@,
        }
    }
}

impl View for State {
    type V = Packet;

    open spec fn view(&self) -> Packet {
        Packet::State {
            transaction_id: self.transaction_id,
            request_pattern: self.request_pattern@,
            key_value_pairs: tuple_views(self.key_value_pairs@),
        }
    }
}

impl View for Ack {
    type V = Packet;

    open spec fn view(&self) -> Packet {
        Packet::Ack { transaction_id: self.transaction_id }
    }
}

impl View for Event {
    type V = Packet;

    open spec fn view(&self) -> Packet {
        Packet::Event {
            transaction_id: self.transaction_id,
            request_pattern: self.request_pattern@,
            key: self.key@,
            value: self.value@,
        }
    }
}

impl View for ErrorReply {
    type V = Packet;

    open spec fn view(&self) -> Packet {
        Packet::ErrorReply {
            transaction_id: self.transaction_id,
            error_code: self.error_code,
            metadata: self.metadata@,
        }
    }
}

impl View for Message {
    type V = Packet;

    open spec fn view(&self) -> Packet {
        match self {
            Message::Get(m) => m@,
            Message::SetValue(m) => m@,
            Message::Subscribe(m) => m@,
            Message::State(m) => m@,
            Message::Ack(m) => m@,
            Message::Event(m) => m@,
            Message::ErrorReply(m) => m@,
        }
    }
}

pub open spec fn pattern_too_long(pattern: Seq<char>) -> Option<EncodeError> {
    if utf8(pattern).len() > u16::MAX {
        Some(EncodeError::RequestPatternTooLong(utf8(pattern).len() as usize))
    } else {
        None
    }
}

pub open spec fn key_too_long(key: Seq<char>) -> Option<EncodeError> {
    if utf8(key).len() > u16::MAX {
        Some(EncodeError::KeyTooLong(utf8(key).len() as usize))
    } else {
        None
    }
}

pub open spec fn value_too_long(value: Seq<char>) -> Option<EncodeError> {
    if utf8(value).len() > u32::MAX {
        Some(EncodeError::ValueTooLong(utf8(value).len() as usize))
    } else {
        None
    }
}

pub open spec fn metadata_too_long(metadata: Seq<char>) -> Option<EncodeError> {
    if utf8(metadata).len() > u32::MAX {
        Some(EncodeError::MetaDataTooLong(utf8(metadata).len() as usize))
    } else {
        None
    }
}

pub open spec fn too_many_pairs(n: nat) -> Option<EncodeError> {
    if n > u32::MAX {
        Some(EncodeError::TooManyKeyValuePairs(n as usize))
    } else {
        None
    }
}

/// The first of the given checks that found an error.
pub open spec fn first_error(checks: Seq<Option<EncodeError>>) -> Option<EncodeError>
    decreases checks.len(),
{
    if checks.len() == 0 {
        None
    } else if checks[0] is Some {
        checks[0]
    } else {
        first_error(checks.drop_first())
    }
}

impl Packet {
    /// The reason why this message has no frame, if it has none: the first
    /// field, in header order, whose length does not fit its length prefix.
    pub open spec fn encode_error(self) -> Option<EncodeError> {
        match self {
            Packet::Get { request_pattern, .. } => pattern_too_long(request_pattern),
            Packet::SetValue { key, value, .. } => first_error(
                seq![key_too_long(key), value_too_long(value)],
            ),
            Packet::Subscribe { request_pattern, .. } => pattern_too_long(request_pattern),
            Packet::State { request_pattern, key_value_pairs, .. } => first_error(
                seq![
                    pattern_too_long(request_pattern),
                    too_many_pairs(key_value_pairs.len()),
                    pair_error(key_value_pairs),
                ],
            ),
            Packet::Ack { .. } => None,
            Packet::Event { request_pattern, key, value, .. } => first_error(
                seq![pattern_too_long(request_pattern), key_too_long(key), value_too_long(value)],
            ),
            Packet::ErrorReply { metadata, .. } => metadata_too_long(metadata),
        }
    }

    /// The bytes of the frame of this message.
    pub open spec fn encoded(self) -> Seq<u8> {
        match self {
            Packet::Get { transaction_id, request_pattern } => head(GET, transaction_id)
                + length_field(request_pattern, 2) + utf8(request_pattern),
            Packet::SetValue { transaction_id, key, value } => head(SET, transaction_id)
                + length_field(key, 2) + length_field(value, 4) + utf8(key) + utf8(value),
            Packet::Subscribe { transaction_id, request_pattern } => head(SUB, transaction_id)
                + length_field(request_pattern, 2) + utf8(request_pattern),
            Packet::State { transaction_id, request_pattern, key_value_pairs } => head(
                STA,
                transaction_id,
            ) + length_field(request_pattern, 2) + be_bytes(key_value_pairs.len(), 4)
                + pair_lengths(key_value_pairs) + utf8(request_pattern) + pair_payload(
                key_value_pairs,
            ),
            Packet::Ack { transaction_id } => head(ACK, transaction_id),
            Packet::Event { transaction_id, request_pattern, key, value } => head(
                EVE,
                transaction_id,
            ) + length_field(request_pattern, 2) + length_field(key, 2) + length_field(value, 4)
                + utf8(request_pattern) + utf8(key) + utf8(value),
            Packet::ErrorReply { transaction_id, error_code, metadata } => head(
                ERR,
                transaction_id,
            ) + seq![error_code] + length_field(metadata, 4) + utf8(metadata),
        }
    }
}

/// What every encoder promises: the frame of the message where it has one,
/// else the first length error.
pub open spec fn encodes(packet: Packet, r: EncodeResult<Vec<u8>>) -> bool {
    match r {
        Ok(bytes) => packet.encode_error() is None && bytes@ == packet.encoded(),
        Err(e) => packet.encode_error() == Some(e),
    }
}

/// Type byte and transaction id in a fresh buffer.
fn start_frame(message_type: MessageType, transaction_id: TransactionId) -> (buf: Vec<u8>)
    ensures
        buf@ == head(message_type, transaction_id),
{
    let mut buf: Vec<u8> = Vec::new();
    buf.push(message_type);
    push_be(&mut buf, transaction_id, 8);
    assert(buf@ =~= head(message_type, transaction_id));
    buf
}

pub fn encode_get_message(msg: &Get) -> (r: EncodeResult<Vec<u8>>)
    ensures
        encodes(msg@, r),
{
    let request_pattern_length = get_request_pattern_length(&msg.request_pattern)?;

    let mut buf = start_frame(GET, msg.transaction_id);
    push_be(&mut buf, request_pattern_length as u64, 2);
    push_str(&mut buf, &msg.request_pattern);

    Ok(buf)
}

pub fn encode_set_message(msg: &SetValue) -> (r: EncodeResult<Vec<u8>>)
    ensures
        encodes(msg@, r),
{
    proof {
        reveal_with_fuel(first_error, 3);
    }
    let key_length = get_key_length(&msg.key)?;
    let value_length = get_value_length(&msg.value)?;

    let mut buf = start_frame(SET, msg.transaction_id);
    push_be(&mut buf, key_length as u64, 2);
    push_be(&mut buf, value_length as u64, 4);
    push_str(&mut buf, &msg.key);
    push_str(&mut buf, &msg.value);

    Ok(buf)
}

pub fn encode_subscribe_message(msg: &Subscribe) -> (r: EncodeResult<Vec<u8>>)
    ensures
        encodes(msg@, r),
{
    let request_pattern_length = get_request_pattern_length(&msg.request_pattern)?;

    let mut buf = start_frame(SUB, msg.transaction_id);
    push_be(&mut buf, request_pattern_length as u64, 2);
    push_str(&mut buf, &msg.request_pattern);

    Ok(buf)
}

pub fn encode_state_message(msg: &State) -> (r: EncodeResult<Vec<u8>>)
    ensures
        encodes(msg@, r),
{
    proof {
        reveal_with_fuel(first_error, 4);
    }
    let request_pattern_length = get_request_pattern_length(&msg.request_pattern)?;
    let num_key_val_pairs = get_num_key_val_pairs(&msg.key_value_pairs)?;

    let mut buf = start_frame(STA, msg.transaction_id);
    push_be(&mut buf, request_pattern_length as u64, 2);
    push_be(&mut buf, num_key_val_pairs as u64, 4);

    let ghost pairs = tuple_views(msg.key_value_pairs@);
    let ghost prefix = buf@;
    let mut i: usize = 0;
    while i < msg.key_value_pairs.len()
        invariant
            i <= msg.key_value_pairs.len(),
            pairs == tuple_views(msg.key_value_pairs@),
            pattern_too_long(msg.request_pattern@) is None,
            pairs.len() <= u32::MAX,
            pair_error(pairs.subrange(0, i as int)) is None,
            buf@ == prefix + pair_lengths(pairs.subrange(0, i as int)),
        decreases msg.key_value_pairs.len() - i,
    {
        let pair = &msg.key_value_pairs[i];
        proof {
            reveal_with_fuel(first_error, 4);
            assert(pairs.subrange(0, i + 1).drop_last() =~= pairs.subrange(0, i as int));
            assert(pairs.subrange(0, i + 1).last() == KeyValueView {
                key: pair.0@,
                value: pair.1@,
            });
            lemma_pair_error_starts(pairs, i + 1);
        }
        let key_length = get_key_length(&pair.0)?;
        let value_length = get_value_length(&pair.1)?;
        push_be(&mut buf, key_length as u64, 2);
        push_be(&mut buf, value_length as u64, 4);
        i += 1;
        assert(buf@ =~= prefix + pair_lengths(pairs.subrange(0, i as int)));
    }
    assert(pairs.subrange(0, i as int) =~= pairs);

    push_str(&mut buf, &msg.request_pattern);

    let ghost prefix = buf@;
    let mut i: usize = 0;
    while i < msg.key_value_pairs.len()
        invariant
            i <= msg.key_value_pairs.len(),
            pairs == tuple_views(msg.key_value_pairs@),
            buf@ == prefix + pair_payload(pairs.subrange(0, i as int)),
        decreases msg.key_value_pairs.len() - i,
    {
        let pair = &msg.key_value_pairs[i];
        proof {
            assert(pairs.subrange(0, i + 1).drop_last() =~= pairs.subrange(0, i as int));
            assert(pairs.subrange(0, i + 1).last() == KeyValueView {
                key: pair.0@,
                value: pair.1@,
            });
        }
        push_str(&mut buf, &pair.0);
        push_str(&mut buf, &pair.1);
        i += 1;
        assert(buf@ =~= prefix + pair_payload(pairs.subrange(0, i as int)));
    }
    assert(pairs.subrange(0, i as int) =~= pairs);
    assert(buf@ =~= msg@.encoded());

    Ok(buf)
}

/// An error among the first pairs is the error of the whole list.
proof fn lemma_pair_error_starts(pairs: Seq<KeyValueView>, n: int)
    requires
        0 <= n <= pairs.len(),
    ensures
        pair_error(pairs.subrange(0, n)) is Some ==> pair_error(pairs) == pair_error(
            pairs.subrange(0, n),
        ),
    decreases pairs.len(),
{
    if n < pairs.len() {
        assert(pairs.drop_last().subrange(0, n) =~= pairs.subrange(0, n));
        lemma_pair_error_starts(pairs.drop_last(), n);
    } else {
        assert(pairs.subrange(0, n) =~= pairs);
    }
}

pub fn encode_ack_message(msg: &Ack) -> (r: EncodeResult<Vec<u8>>)
    ensures
        encodes(msg@, r),
        r is Ok,
{
    let buf = start_frame(ACK, msg.transaction_id);

    Ok(buf)
}

pub fn encode_event_message(msg: &Event) -> (r: EncodeResult<Vec<u8>>)
    ensures
        encodes(msg@, r),
{
    proof {
        reveal_with_fuel(first_error, 4);
    }
    let request_pattern_length = get_request_pattern_length(&msg.request_pattern)?;
    let key_length = get_key_length(&msg.key)?;
    let value_length = get_value_length(&msg.value)?;

    let mut buf = start_frame(EVE, msg.transaction_id);
    push_be(&mut buf, request_pattern_length as u64, 2);
    push_be(&mut buf, key_length as u64, 2);
    push_be(&mut buf, value_length as u64, 4);
    push_str(&mut buf, &msg.request_pattern);
    push_str(&mut buf, &msg.key);
    push_str(&mut buf, &msg.value);

    Ok(buf)
}

pub fn encode_err_message(msg: &ErrorReply) -> (r: EncodeResult<Vec<u8>>)
    ensures
        encodes(msg@, r),
{
    let metadata_length = get_metadata_length(&msg.metadata)?;

    let mut buf = start_frame(ERR, msg.transaction_id);
    buf.push(msg.error_code);
    push_be(&mut buf, metadata_length as u64, 4);
    push_str(&mut buf, &msg.metadata);
    assert(buf@ =~= msg@.encoded());

    Ok(buf)
}

fn get_request_pattern_length(string: &str) -> (r: EncodeResult<RequestPatternLength>)
    ensures
        r == match pattern_too_long(string@) {
            Some(e) => Err::<RequestPatternLength, EncodeError>(e),
            None => Ok(utf8(string@).len() as u16),
        },
{
    let length = string.as_bytes().len();
    if length > RequestPatternLength::MAX as usize {
        Err(EncodeError::RequestPatternTooLong(length))
    } else {
        Ok(length as RequestPatternLength)
    }
}

fn get_key_length(string: &str) -> (r: EncodeResult<KeyLength>)
    ensures
        r == match key_too_long(string@) {
            Some(e) => Err::<KeyLength, EncodeError>(e),
            None => Ok(utf8(string@).len() as u16),
        },
{
    let length = string.as_bytes().len();
    if length > KeyLength::MAX as usize {
        Err(EncodeError::KeyTooLong(length))
    } else {
        Ok(length as KeyLength)
    }
}

fn get_value_length(string: &str) -> (r: EncodeResult<ValueLength>)
    ensures
        r == match value_too_long(string@) {
            Some(e) => Err::<ValueLength, EncodeError>(e),
            None => Ok(utf8(string@).len() as u32),
        },
{
    let length = string.as_bytes().len();
    if length > ValueLength::MAX as usize {
        Err(EncodeError::ValueTooLong(length))
    } else {
        Ok(length as ValueLength)
    }
}

fn get_num_key_val_pairs(pairs: &[(String, String)]) -> (r: EncodeResult<NumKeyValuePairs>)
    ensures
        r == match too_many_pairs(pairs@.len()) {
            Some(e) => Err::<NumKeyValuePairs, EncodeError>(e),
            None => Ok(pairs@.len() as u32),
        },
{
    let length = pairs.len();
    if length > NumKeyValuePairs::MAX as usize {
        Err(EncodeError::TooManyKeyValuePairs(length))
    } else {
        Ok(length as NumKeyValuePairs)
    }
}

fn get_metadata_length(string: &str) -> (r: EncodeResult<MetaDataLength>)
    ensures
        r == match metadata_too_long(string@) {
            Some(e) => Err::<MetaDataLength, EncodeError>(e),
            None => Ok(utf8(string@).len() as u32),
        },
{
    let length = string.as_bytes().len();
    if length > MetaDataLength::MAX as usize {
        Err(EncodeError::MetaDataTooLong(length))
    } else {
        Ok(length as MetaDataLength)
    }
}

} // verus!
