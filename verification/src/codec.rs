//! The binary framing.
//!
//! A frame starts with one byte that names the message type. A fixed header
//! follows (transaction id, then the lengths of the variable fields), then the
//! variable fields themselves. All integers are big-endian, all strings are
//! UTF-8 without terminator and their lengths count bytes.

use crate::encoding::{be_bytes, push_be, push_str, utf8};
use crate::error::{EncodeError, EncodeResult};
use vstd::prelude::*;

verus! {

pub type MessageType = u8;

pub type TransactionId = u64;

pub type RequestPattern = String;

pub type Key = String;

pub type Value = String;

pub type KeyValuePairs = Vec<KeyValuePair>;

pub type ErrorCode = u8;

pub type MetaData = String;

pub type PathLength = u16;

pub type Path = String;

pub type Separator = char;

pub type Wildcard = char;

pub type MultiWildcard = char;

pub type ProtocolVersionSegment = u16;

pub type ProtocolVersions = Vec<ProtocolVersion>;

pub type RequestPatternLength = u16;

pub type KeyLength = u16;

pub type ValueLength = u32;

pub type MetaDataLength = u32;

pub type NumKeyValuePairs = u32;

pub type NumProtocolVersions = u8;

pub const GET: MessageType = 0b00000000;

pub const SET: MessageType = 0b00000001;

pub const SUB: MessageType = 0b00000010;

pub const PGET: MessageType = 0b00000011;

pub const PSUB: MessageType = 0b00000100;

pub const EXP: MessageType = 0b00000101;

pub const IMP: MessageType = 0b00000110;

pub const USUB: MessageType = 0b00000111;

pub const PSTA: MessageType = 0b10000000;

pub const ACK: MessageType = 0b10000001;

pub const STA: MessageType = 0b10000010;

pub const ERR: MessageType = 0b10000011;

pub const HSHK: MessageType = 0b10000100;

pub const ILLEGAL_WILDCARD: ErrorCode = 0b00000000;

pub const ILLEGAL_MULTI_WILDCARD: ErrorCode = 0b00000001;

pub const MULTI_WILDCARD_AT_ILLEGAL_POSITION: ErrorCode = 0b00000010;

pub const IO_ERROR: ErrorCode = 0b00000011;

pub const SERDE_ERROR: ErrorCode = 0b00000100;

pub const NO_SUCH_VALUE: ErrorCode = 0b00000101;

pub const NOT_SUBSCRIBED: ErrorCode = 0b00000110;

pub const OTHER: ErrorCode = 0b11111111;

pub const TRANSACTION_ID_BYTES: usize = 8;

pub const REQUEST_PATTERN_LENGTH_BYTES: usize = 2;

pub const KEY_LENGTH_BYTES: usize = 2;

pub const VALUE_LENGTH_BYTES: usize = 4;

pub const NUM_KEY_VALUE_PAIRS_BYTES: usize = 4;

pub const ERROR_CODE_BYTES: usize = 1;

pub const METADATA_LENGTH_BYTES: usize = 4;

pub const PATH_LENGTH_BYTES: usize = 2;

pub const UNIQUE_FLAG_BYTES: usize = 1;

pub const PROTOCOL_VERSION_SEGMENT_BYTES: usize = 2;

pub const NUM_PROTOCOL_VERSION_BYTES: usize = 1;

pub const SEPARATOR_BYTES: usize = 1;

pub const WILDCARD_BYTES: usize = 1;

pub const MULTI_WILDCARD_BYTES: usize = 1;

#[derive(Debug, Clone, Copy, PartialEq, Eq, Hash, Structural)]
pub struct ProtocolVersion {
    pub major: ProtocolVersionSegment,
    pub minor: ProtocolVersionSegment,
}

#[derive(Debug, Clone, PartialEq, Eq, Hash)]
pub enum ClientMessage {
    Get(Get),
    PGet(PGet),
    SetValue(SetValue),
    Subscribe(Subscribe),
    PSubscribe(PSubscribe),
    Export(Export),
    Import(Import),
    Unsubscribe(Unsubscribe),
}

#[derive(Debug, Clone, PartialEq, Eq, Hash)]
pub enum ServerMessage {
    PState(PState),
    Ack(Ack),
    State(State),
    ErrorReply(ErrorReply),
    Handshake(Handshake),
}

#[derive(Debug, Clone, PartialEq, Eq, Hash)]
pub struct KeyValuePair {
    pub key: Key,
    pub value: Value,
}

#[derive(Debug, Clone, PartialEq, Eq, Hash)]
pub struct Get {
    pub transaction_id: TransactionId,
    pub key: Key,
}

#[derive(Debug, Clone, PartialEq, Eq, Hash)]
pub struct PGet {
    pub transaction_id: TransactionId,
    pub request_pattern: RequestPattern,
}

#[derive(Debug, Clone, PartialEq, Eq, Hash)]
pub struct SetValue {
    pub transaction_id: TransactionId,
    pub key: Key,
    pub value: Value,
}

#[derive(Debug, Clone, PartialEq, Eq, Hash)]
pub struct Subscribe {
    pub transaction_id: TransactionId,
    pub key: RequestPattern,
    pub unique: bool,
}

#[derive(Debug, Clone, PartialEq, Eq, Hash)]
pub struct PSubscribe {
    pub transaction_id: TransactionId,
    pub request_pattern: RequestPattern,
    pub unique: bool,
}

#[derive(Debug, Clone, PartialEq, Eq, Hash)]
pub struct PState {
    pub transaction_id: TransactionId,
    pub request_pattern: RequestPattern,
    pub key_value_pairs: KeyValuePairs,
}

#[derive(Debug, Clone, Copy, PartialEq, Eq, Hash, Structural)]
pub struct Ack {
    pub transaction_id: TransactionId,
}

#[derive(Debug, Clone, PartialEq, Eq, Hash)]
pub struct State {
    pub transaction_id: TransactionId,
    pub key_value: KeyValuePair,
}

#[derive(Debug, Clone, PartialEq, Eq, Hash)]
pub struct ErrorReply {
    pub transaction_id: TransactionId,
    pub error_code: ErrorCode,
    pub metadata: MetaData,
}

#[derive(Debug, Clone, PartialEq, Eq, Hash)]
pub struct Handshake {
    pub supported_protocol_versions: ProtocolVersions,
    pub separator: Separator,
    pub wildcard: Wildcard,
    pub multi_wildcard: MultiWildcard,
}

#[derive(Debug, Clone, PartialEq, Eq, Hash)]
pub struct Export {
    pub transaction_id: TransactionId,
    pub path: Path,
}

#[derive(Debug, Clone, PartialEq, Eq, Hash)]
pub struct Import {
    pub transaction_id: TransactionId,
    pub path: Path,
}

#[derive(Debug, Clone, Copy, PartialEq, Eq, Hash, Structural)]
pub struct Unsubscribe {
    pub transaction_id: TransactionId,
}

/// A key with its value, as plain sequences of characters.
pub struct KeyValueView {
    pub key: Seq<char>,
    pub value: Seq<char>,
}

/// What a message says, whatever its direction: the mathematical value that
/// the frame layout is defined on.
pub enum Frame {
    Get { transaction_id: u64, key: Seq<char> },
    PGet { transaction_id: u64, request_pattern: Seq<char> },
    SetValue { transaction_id: u64, key: Seq<char>, value: Seq<char> },
    Subscribe { transaction_id: u64, key: Seq<char>, unique: bool },
    PSubscribe { transaction_id: u64, request_pattern: Seq<char>, unique: bool },
    Export { transaction_id: u64, path: Seq<char> },
    Import { transaction_id: u64, path: Seq<char> },
    Unsubscribe { transaction_id: u64 },
    PState { transaction_id: u64, request_pattern: Seq<char>, key_value_pairs: Seq<KeyValueView> },
    Ack { transaction_id: u64 },
    State { transaction_id: u64, key_value: KeyValueView },
    ErrorReply { transaction_id: u64, error_code: u8, metadata: Seq<char> },
    Handshake {
        supported_protocol_versions: Seq<ProtocolVersion>,
        separator: char,
        wildcard: char,
        multi_wildcard: char,
    },
}

impl View for KeyValuePair {
    type V = KeyValueView;

    open spec fn view(&self) -> KeyValueView {
        KeyValueView { key: self.key@, value: self.value@ }
    }
}

impl From<(String, String)> for KeyValuePair {
    fn from(pair: (String, String)) -> (kv: Self) {
        KeyValuePair { key: pair.0, value: pair.1 }
    }
}

impl vstd::std_specs::convert::FromSpecImpl<(String, String)> for KeyValuePair {
    open spec fn obeys_from_spec() -> bool {
        true
    }

    open spec fn from_spec(pair: (String, String)) -> Self {
        KeyValuePair { key: pair.0, value: pair.1 }
    }
}

impl KeyValuePair {
    /// A pair that owns copies of the given key and value.
    pub fn of(key: &str, value: &str) -> (kv: Self)
        ensures
            kv@ == (KeyValueView { key: key@, value: value@ }),
    {
        KeyValuePair { key: key.to_owned(), value: value.to_owned() }
    }
}

/// The views of a list of pairs, in order.
pub open spec fn pair_views(pairs: Seq<KeyValuePair>) -> Seq<KeyValueView> {
    pairs.map_values(|p: KeyValuePair| p@)
}

impl View for Get {
    type V = Frame;

    open spec fn view(&self) -> Frame {
        Frame::Get { transaction_id: self.transaction_id, key: self.key@ }
    }
}

impl View for PGet {
    type V = Frame;

    open spec fn view(&self) -> Frame {
        Frame::PGet { transaction_id: self.transaction_id, request_pattern: self.request_pattern@ }
    }
}

impl View for SetValue {
    type V = Frame;

    open spec fn view(&self) -> Frame {
        Frame::SetValue { transaction_id: self.transaction_id, key: self.key@, value: self.value@ }
    }
}

impl View for Subscribe {
    type V = Frame;

    open spec fn view(&self) -> Frame {
        Frame::Subscribe { transaction_id: self.transaction_id, key: self.key@, unique: self.unique }
    }
}

impl View for PSubscribe {
    type V = Frame;

    open spec fn view(&self) -> Frame {
        Frame::PSubscribe {
            transaction_id: self.transaction_id,
            request_pattern: self.request_pattern@,
            unique: self.unique,
        }
    }
}

impl View for Export {
    type V = Frame;

    open spec fn view(&self) -> Frame {
        Frame::Export { transaction_id: self.transaction_id, path: self.path@ }
    }
}

impl View for Import {
    type V = Frame;

    open spec fn view(&self) -> Frame {
        Frame::Import { transaction_id: self.transaction_id, path: self.path@ }
    }
}

impl View for Unsubscribe {
    type V = Frame;

    open spec fn view(&self) -> Frame {
        Frame::Unsubscribe { transaction_id: self.transaction_id }
    }
}

impl View for PState {
    type V = Frame;

    open spec fn view(&self) -> Frame {
        Frame::PState {
            transaction_id: self.transaction_id,
            request_pattern: self.request_pattern@,
            key_value_pairs: pair_views(self.key_value_pairs@),
        }
    }
}

impl View for Ack {
    type V = Frame;

    open spec fn view(&self) -> Frame {
        Frame::Ack { transaction_id: self.transaction_id }
    }
}

impl View for State {
    type V = Frame;

    open spec fn view(&self) -> Frame {
        Frame::State { transaction_id: self.transaction_id, key_value: self.key_value@ }
    }
}

impl View for ErrorReply {
    type V = Frame;

    open spec fn view(&self) -> Frame {
        Frame::ErrorReply {
            transaction_id: self.transaction_id,
            error_code: self.error_code,
            metadata: self.metadata@,
        }
    }
}

impl View for Handshake {
    type V = Frame;

    open spec fn view(&self) -> Frame {
        Frame::Handshake {
            supported_protocol_versions: self.supported_protocol_versions@,
            separator: self.separator,
            wildcard: self.wildcard,
            multi_wildcard: self.multi_wildcard,
        }
    }
}

impl View for ClientMessage {
    type V = Frame;

    open spec fn view(&self) -> Frame {
        match self {
            ClientMessage::Get(m) => m@,
            ClientMessage::PGet(m) => m@,
            ClientMessage::SetValue(m) => m@,
            ClientMessage::Subscribe(m) => m@,
            ClientMessage::PSubscribe(m) => m@,
            ClientMessage::Export(m) => m@,
            ClientMessage::Import(m) => m@,
            ClientMessage::Unsubscribe(m) => m@,
        }
    }
}

impl View for ServerMessage {
    type V = Frame;

    open spec fn view(&self) -> Frame {
        match self {
            ServerMessage::PState(m) => m@,
            ServerMessage::Ack(m) => m@,
            ServerMessage::State(m) => m@,
            ServerMessage::ErrorReply(m) => m@,
            ServerMessage::Handshake(m) => m@,
        }
    }
}

/// Type byte and transaction id: the start of every frame but the handshake.
pub open spec fn head(message_type: u8, transaction_id: u64) -> Seq<u8> {
    seq![message_type] + be_bytes(transaction_id as nat, 8)
}

/// The byte length of a string as a big-endian number of `width` bytes.
pub open spec fn length_field(s: Seq<char>, width: nat) -> Seq<u8> {
    be_bytes(utf8(s).len(), width)
}

/// The unique flag as one byte.
pub open spec fn flag(b: bool) -> Seq<u8> {
    seq![if b { 1u8 } else { 0u8 }]
}

/// One character as one byte: its code point modulo 256.
pub open spec fn char_byte(c: char) -> u8 {
    (c as u32 % 256) as u8
}

/// The length fields of the pairs of a pattern state, pair by pair: key
/// length in two bytes, value length in four.
pub open spec fn pair_lengths(pairs: Seq<KeyValueView>) -> Seq<u8>
    decreases pairs.len(),
{
    if pairs.len() == 0 {
        Seq::empty()
    } else {
        pair_lengths(pairs.drop_last()) + length_field(pairs.last().key, 2) + length_field(
            pairs.last().value,
            4,
        )
    }
}

/// The keys and values of the pairs of a pattern state, pair by pair.
pub open spec fn pair_payload(pairs: Seq<KeyValueView>) -> Seq<u8>
    decreases pairs.len(),
{
    if pairs.len() == 0 {
        Seq::empty()
    } else {
        pair_payload(pairs.drop_last()) + utf8(pairs.last().key) + utf8(pairs.last().value)
    }
}

/// The protocol versions of a handshake, each as major then minor in two
/// bytes.
pub open spec fn version_bytes(versions: Seq<ProtocolVersion>) -> Seq<u8>
    decreases versions.len(),
{
    if versions.len() == 0 {
        Seq::empty()
    } else {
        version_bytes(versions.drop_last()) + be_bytes(versions.last().major as nat, 2) + be_bytes(
            versions.last().minor as nat,
            2,
        )
    }
}

/// The first length error among the pairs, in the order in which the fields
/// are written: each key before its value, each pair before the next.
pub open spec fn pair_error(pairs: Seq<KeyValueView>) -> Option<EncodeError>
    decreases pairs.len(),
{
    if pairs.len() == 0 {
        None
    } else if pair_error(pairs.drop_last()) is Some {
        pair_error(pairs.drop_last())
    } else if utf8(pairs.last().key).len() > u16::MAX {
        Some(EncodeError::KeyTooLong(utf8(pairs.last().key).len() as usize))
    } else if utf8(pairs.last().value).len() > u32::MAX {
        Some(EncodeError::ValueTooLong(utf8(pairs.last().value).len() as usize))
    } else {
        None
    }
}

impl Frame {
    /// The reason why this message has no frame, if it has none: the first
    /// field, in header order, whose length does not fit its length prefix.
    pub open spec fn encode_error(self) -> Option<EncodeError> {
        match self {
            Frame::Get { key, .. } => key_error(key),
            Frame::PGet { request_pattern, .. } => pattern_error(request_pattern),
            Frame::SetValue { key, value, .. } => if key_error(key) is Some {
                key_error(key)
            } else {
                value_error(value)
            },
            Frame::Subscribe { key, .. } => key_error(key),
            Frame::PSubscribe { request_pattern, .. } => pattern_error(request_pattern),
            Frame::Export { path, .. } => path_error(path),
            Frame::Import { path, .. } => path_error(path),
            Frame::Unsubscribe { .. } => None,
            Frame::PState { request_pattern, key_value_pairs, .. } => if pattern_error(
                request_pattern,
            ) is Some {
                pattern_error(request_pattern)
            } else if key_value_pairs.len() > u32::MAX {
                Some(EncodeError::TooManyKeyValuePairs(key_value_pairs.len() as usize))
            } else {
                pair_error(key_value_pairs)
            },
            Frame::Ack { .. } => None,
            Frame::State { key_value, .. } => if key_error(key_value.key) is Some {
                key_error(key_value.key)
            } else {
                value_error(key_value.value)
            },
            Frame::ErrorReply { metadata, .. } => if utf8(metadata).len() > u32::MAX {
                Some(EncodeError::MetaDataTooLong(utf8(metadata).len() as usize))
            } else {
                None
            },
            Frame::Handshake { supported_protocol_versions, .. } => if supported_protocol_versions.len()
                > u8::MAX {
                Some(EncodeError::TooManyProtocolVersions(supported_protocol_versions.len() as usize))
            } else {
                None
            },
        }
    }

    /// The bytes of the frame of this message.
    pub open spec fn encoded(self) -> Seq<u8> {
        match self {
            Frame::Get { transaction_id, key } => head(GET, transaction_id) + length_field(key, 2)
                + utf8(key),
            Frame::PGet { transaction_id, request_pattern } => head(PGET, transaction_id)
                + length_field(request_pattern, 2) + utf8(request_pattern),
            Frame::SetValue { transaction_id, key, value } => head(SET, transaction_id) + length_field(
                key,
                2,
            ) + length_field(value, 4) + utf8(key) + utf8(value),
            Frame::Subscribe { transaction_id, key, unique } => head(SUB, transaction_id)
                + length_field(key, 2) + utf8(key) + flag(unique),
            Frame::PSubscribe { transaction_id, request_pattern, unique } => head(
                PSUB,
                transaction_id,
            ) + length_field(request_pattern, 2) + utf8(request_pattern) + flag(unique),
            Frame::Export { transaction_id, path } => head(EXP, transaction_id) + length_field(
                path,
                2,
            ) + utf8(path),
            Frame::Import { transaction_id, path } => head(IMP, transaction_id) + length_field(
                path,
                2,
            ) + utf8(path),
            Frame::Unsubscribe { transaction_id } => head(USUB, transaction_id),
            Frame::PState { transaction_id, request_pattern, key_value_pairs } => head(
                PSTA,
                transaction_id,
            ) + length_field(request_pattern, 2) + be_bytes(key_value_pairs.len(), 4)
                + pair_lengths(key_value_pairs) + utf8(request_pattern) + pair_payload(
                key_value_pairs,
            ),
            Frame::Ack { transaction_id } => head(ACK, transaction_id),
            Frame::State { transaction_id, key_value } => head(STA, transaction_id) + length_field(
                key_value.key,
                2,
            ) + length_field(key_value.value, 4) + utf8(key_value.key) + utf8(key_value.value),
            Frame::ErrorReply { transaction_id, error_code, metadata } => head(ERR, transaction_id)
                + seq![error_code] + length_field(metadata, 4) + utf8(metadata),
            Frame::Handshake { supported_protocol_versions, separator, wildcard, multi_wildcard } => {
                seq![HSHK] + be_bytes(supported_protocol_versions.len(), 1) + version_bytes(
                    supported_protocol_versions,
                ) + seq![char_byte(separator), char_byte(wildcard), char_byte(multi_wildcard)]
            },
        }
    }
}

pub open spec fn key_error(key: Seq<char>) -> Option<EncodeError> {
    if utf8(key).len() > u16::MAX {
        Some(EncodeError::KeyTooLong(utf8(key).len() as usize))
    } else {
        None
    }
}

pub open spec fn pattern_error(pattern: Seq<char>) -> Option<EncodeError> {
    if utf8(pattern).len() > u16::MAX {
        Some(EncodeError::RequestPatternTooLong(utf8(pattern).len() as usize))
    } else {
        None
    }
}

pub open spec fn value_error(value: Seq<char>) -> Option<EncodeError> {
    if utf8(value).len() > u32::MAX {
        Some(EncodeError::ValueTooLong(utf8(value).len() as usize))
    } else {
        None
    }
}

pub open spec fn path_error(path: Seq<char>) -> Option<EncodeError> {
    if utf8(path).len() > u16::MAX {
        Some(EncodeError::PathTooLong(utf8(path).len() as usize))
    } else {
        None
    }
}

/// What every encoder promises: the frame of the message where it has one,
/// else the first length error.
pub open spec fn encodes(frame: Frame, r: EncodeResult<Vec<u8>>) -> bool {
    match r {
        Ok(bytes) => frame.encode_error() is None && bytes@ == frame.encoded(),
        Err(e) => frame.encode_error() == Some(e),
    }
}

impl ClientMessage {
    pub fn transaction_id(&self) -> (tid: TransactionId)
        ensures
            tid == match self@ {
                Frame::Get { transaction_id, .. } => transaction_id,
                Frame::PGet { transaction_id, .. } => transaction_id,
                Frame::SetValue { transaction_id, .. } => transaction_id,
                Frame::Subscribe { transaction_id, .. } => transaction_id,
                Frame::PSubscribe { transaction_id, .. } => transaction_id,
                Frame::Export { transaction_id, .. } => transaction_id,
                Frame::Import { transaction_id, .. } => transaction_id,
                Frame::Unsubscribe { transaction_id } => transaction_id,
                _ => 0,
            },
    {
        match self {
            ClientMessage::Get(m) => m.transaction_id,
            ClientMessage::PGet(m) => m.transaction_id,
            ClientMessage::SetValue(m) => m.transaction_id,
            ClientMessage::Subscribe(m) => m.transaction_id,
            ClientMessage::PSubscribe(m) => m.transaction_id,
            ClientMessage::Export(m) => m.transaction_id,
            ClientMessage::Import(m) => m.transaction_id,
            ClientMessage::Unsubscribe(m) => m.transaction_id,
        }
    }
}

impl ServerMessage {
    /// The transaction that the message answers; a handshake answers none
    /// and gives 0.
    pub fn transaction_id(&self) -> (tid: u64)
        ensures
            tid == match self@ {
                Frame::PState { transaction_id, .. } => transaction_id,
                Frame::Ack { transaction_id } => transaction_id,
                Frame::State { transaction_id, .. } => transaction_id,
                Frame::ErrorReply { transaction_id, .. } => transaction_id,
                _ => 0,
            },
    {
        match self {
            ServerMessage::PState(msg) => msg.transaction_id,
            ServerMessage::Ack(msg) => msg.transaction_id,
            ServerMessage::State(msg) => msg.transaction_id,
            ServerMessage::ErrorReply(msg) => msg.transaction_id,
            ServerMessage::Handshake(_) => 0,
        }
    }
}

pub fn encode_message(msg: &ClientMessage) -> (r: EncodeResult<Vec<u8>>)
    ensures
        encodes(msg@, r),
{
    match msg {
        ClientMessage::Get(msg) => encode_get_message(msg),
        ClientMessage::PGet(msg) => encode_pget_message(msg),
        ClientMessage::SetValue(msg) => encode_set_message(msg),
        ClientMessage::Subscribe(msg) => encode_subscribe_message(msg),
        ClientMessage::PSubscribe(msg) => encode_psubscribe_message(msg),
        ClientMessage::Export(msg) => encode_export_message(msg),
        ClientMessage::Import(msg) => encode_import_message(msg),
        ClientMessage::Unsubscribe(msg) => encode_unsubscribe_message(msg),
    }
}

/// Type byte and transaction id in a fresh buffer.
fn start_frame(message_type: MessageType, transaction_id: TransactionId) -> (buf: Vec<u8>)
    ensures
        buf@ == head(message_type, transaction_id),
{
    let mut buf: Vec<u8> = Vec::new();
    buf.push(message_type);
    push_be(&mut buf, transaction_id, 8);
    assert(buf@ =~= head(message_type, transaction_id));
    buf
}

pub fn encode_get_message(msg: &Get) -> (r: EncodeResult<Vec<u8>>)
    ensures
        encodes(msg@, r),
{
    let key_length = get_key_length(&msg.key)?;

    let mut buf = start_frame(GET, msg.transaction_id);
    push_be(&mut buf, key_length as u64, 2);
    push_str(&mut buf, &msg.key);

    Ok(buf)
}

pub fn encode_pget_message(msg: &PGet) -> (r: EncodeResult<Vec<u8>>)
    ensures
        encodes(msg@, r),
{
    let request_pattern_length = get_request_pattern_length(&msg.request_pattern)?;

    let mut buf = start_frame(PGET, msg.transaction_id);
    push_be(&mut buf, request_pattern_length as u64, 2);
    push_str(&mut buf, &msg.request_pattern);

    Ok(buf)
}

pub fn encode_set_message(msg: &SetValue) -> (r: EncodeResult<Vec<u8>>)
    ensures
        encodes(msg@, r),
{
    let key_length = get_key_length(&msg.key)?;
    let value_length = get_value_length(&msg.value)?;

    let mut buf = start_frame(SET, msg.transaction_id);
    push_be(&mut buf, key_length as u64, 2);
    push_be(&mut buf, value_length as u64, 4);
    push_str(&mut buf, &msg.key);
    push_str(&mut buf, &msg.value);

    Ok(buf)
}

pub fn encode_subscribe_message(msg: &Subscribe) -> (r: EncodeResult<Vec<u8>>)
    ensures
        encodes(msg@, r),
{
    let key_length = get_key_length(&msg.key)?;

    let mut buf = start_frame(SUB, msg.transaction_id);
    push_be(&mut buf, key_length as u64, 2);
    push_str(&mut buf, &msg.key);
    buf.push(if msg.unique { 1 } else { 0 });
    assert(buf@ =~= msg@.encoded());

    Ok(buf)
}

pub fn encode_psubscribe_message(msg: &PSubscribe) -> (r: EncodeResult<Vec<u8>>)
    ensures
        encodes(msg@, r),
{
    let request_pattern_length = get_request_pattern_length(&msg.request_pattern)?;

    let mut buf = start_frame(PSUB, msg.transaction_id);
    push_be(&mut buf, request_pattern_length as u64, 2);
    push_str(&mut buf, &msg.request_pattern);
    buf.push(if msg.unique { 1 } else { 0 });
    assert(buf@ =~= msg@.encoded());

    Ok(buf)
}

pub fn encode_export_message(msg: &Export) -> (r: EncodeResult<Vec<u8>>)
    ensures
        encodes(msg@, r),
{
    let path_length = get_path_length(&msg.path)?;

    let mut buf = start_frame(EXP, msg.transaction_id);
    push_be(&mut buf, path_length as u64, 2);
    push_str(&mut buf, &msg.path);

    Ok(buf)
}

pub fn encode_import_message(msg: &Import) -> (r: EncodeResult<Vec<u8>>)
    ensures
        encodes(msg@, r),
{
    let path_length = get_path_length(&msg.path)?;

    let mut buf = start_frame(IMP, msg.transaction_id);
    push_be(&mut buf, path_length as u64, 2);
    push_str(&mut buf, &msg.path);

    Ok(buf)
}

pub fn encode_pstate_message(msg: &PState) -> (r: EncodeResult<Vec<u8>>)
    ensures
        encodes(msg@, r),
{
    let request_pattern_length = get_request_pattern_length(&msg.request_pattern)?;
    let num_key_val_pairs = get_num_key_val_pairs(&msg.key_value_pairs)?;

    let mut buf = start_frame(PSTA, msg.transaction_id);
    push_be(&mut buf, request_pattern_length as u64, 2);
    push_be(&mut buf, num_key_val_pairs as u64, 4);

    let ghost pairs = pair_views(msg.key_value_pairs@);
    let ghost prefix = buf@;
    let mut i: usize = 0;
    while i < msg.key_value_pairs.len()
        invariant
            i <= msg.key_value_pairs.len(),
            pairs == pair_views(msg.key_value_pairs@),
            pattern_error(msg.request_pattern@) is None,
            pairs.len() <= u32::MAX,
            pair_error(pairs.subrange(0, i as int)) is None,
            buf@ == prefix + pair_lengths(pairs.subrange(0, i as int)),
        decreases msg.key_value_pairs.len() - i,
    {
        let pair = &msg.key_value_pairs[i];
        proof {
            assert(pairs.subrange(0, i + 1).drop_last() =~= pairs.subrange(0, i as int));
            assert(pairs.subrange(0, i + 1).last() == pair@);
            lemma_pair_error_prefix(pairs, i + 1);
        }
        let key_length = get_key_length(&pair.key)?;
        let value_length = get_value_length(&pair.value)?;
        push_be(&mut buf, key_length as u64, 2);
        push_be(&mut buf, value_length as u64, 4);
        i += 1;
        assert(buf@ =~= prefix + pair_lengths(pairs.subrange(0, i as int)));
    }
    assert(pairs.subrange(0, i as int) =~= pairs);

    push_str(&mut buf, &msg.request_pattern);

    let ghost prefix = buf@;
    let mut i: usize = 0;
    while i < msg.key_value_pairs.len()
        invariant
            i <= msg.key_value_pairs.len(),
            pairs == pair_views(msg.key_value_pairs@),
            buf@ == prefix + pair_payload(pairs.subrange(0, i as int)),
        decreases msg.key_value_pairs.len() - i,
    {
        let pair = &msg.key_value_pairs[i];
        proof {
            assert(pairs.subrange(0, i + 1).drop_last() =~= pairs.subrange(0, i as int));
            assert(pairs.subrange(0, i + 1).last() == pair@);
        }
        push_str(&mut buf, &pair.key);
        push_str(&mut buf, &pair.value);
        i += 1;
        assert(buf@ =~= prefix + pair_payload(pairs.subrange(0, i as int)));
    }
    assert(pairs.subrange(0, i as int) =~= pairs);
    assert(buf@ =~= msg@.encoded());

    Ok(buf)
}

/// An error among the first pairs is the error of the whole list.
proof fn lemma_pair_error_prefix(pairs: Seq<KeyValueView>, n: int)
    requires
        0 <= n <= pairs.len(),
    ensures
        pair_error(pairs.subrange(0, n)) is Some ==> pair_error(pairs) == pair_error(
            pairs.subrange(0, n),
        ),
    decreases pairs.len(),
{
    if n < pairs.len() {
        assert(pairs.drop_last().subrange(0, n) =~= pairs.subrange(0, n));
        lemma_pair_error_prefix(pairs.drop_last(), n);
    } else {
        assert(pairs.subrange(0, n) =~= pairs);
    }
}

pub fn encode_ack_message(msg: &Ack) -> (r: EncodeResult<Vec<u8>>)
    ensures
        encodes(msg@, r),
        r is Ok,
{
    let buf = start_frame(ACK, msg.transaction_id);

    Ok(buf)
}

pub fn encode_state_message(msg: &State) -> (r: EncodeResult<Vec<u8>>)
    ensures
        encodes(msg@, r),
{
    let key_length = get_key_length(&msg.key_value.key)?;
    let value_length = get_value_length(&msg.key_value.value)?;

    let mut buf = start_frame(STA, msg.transaction_id);
    push_be(&mut buf, key_length as u64, 2);
    push_be(&mut buf, value_length as u64, 4);

    push_str(&mut buf, &msg.key_value.key);
    push_str(&mut buf, &msg.key_value.value);

    Ok(buf)
}

pub fn encode_err_message(msg: &ErrorReply) -> (r: EncodeResult<Vec<u8>>)
    ensures
        encodes(msg@, r),
{
    let metadata_length = get_metadata_length(&msg.metadata)?;

    let mut buf = start_frame(ERR, msg.transaction_id);
    buf.push(msg.error_code);
    push_be(&mut buf, metadata_length as u64, 4);
    push_str(&mut buf, &msg.metadata);
    assert(buf@ =~= msg@.encoded());

    Ok(buf)
}

pub fn encode_handshake_message(msg: &Handshake) -> (r: EncodeResult<Vec<u8>>)
    ensures
        encodes(msg@, r),
{
    let num_protocol_versions = get_num_protocol_versions(&msg.supported_protocol_versions)?;

    let mut buf: Vec<u8> = Vec::new();
    buf.push(HSHK);
    push_be(&mut buf, num_protocol_versions as u64, 1);

    let ghost versions = msg.supported_protocol_versions@;
    let ghost prefix = buf@;
    let mut i: usize = 0;
    while i < msg.supported_protocol_versions.len()
        invariant
            i <= msg.supported_protocol_versions.len(),
            versions == msg.supported_protocol_versions@,
            buf@ == prefix + version_bytes(versions.subrange(0, i as int)),
        decreases msg.supported_protocol_versions.len() - i,
    {
        let version = &msg.supported_protocol_versions[i];
        proof {
            assert(versions.subrange(0, i + 1).drop_last() =~= versions.subrange(0, i as int));
        }
        push_be(&mut buf, version.major as u64, 2);
        push_be(&mut buf, version.minor as u64, 2);
        i += 1;
        assert(buf@ =~= prefix + version_bytes(versions.subrange(0, i as int)));
    }
    assert(versions.subrange(0, i as int) =~= versions);

    buf.push(low_byte(msg.separator));
    buf.push(low_byte(msg.wildcard));
    buf.push(low_byte(msg.multi_wildcard));
    assert(buf@ =~= msg@.encoded());

    Ok(buf)
}

/// The code point of `c` modulo 256.
fn low_byte(c: char) -> (b: u8)
    ensures
        b == char_byte(c),
{
    (c as u32 % 256) as u8
}

pub fn encode_unsubscribe_message(msg: &Unsubscribe) -> (r: EncodeResult<Vec<u8>>)
    ensures
        encodes(msg@, r),
        r is Ok,
{
    let buf = start_frame(USUB, msg.transaction_id);

    Ok(buf)
}

fn get_request_pattern_length(string: &str) -> (r: EncodeResult<RequestPatternLength>)
    ensures
        r == match pattern_error(string@) {
            Some(e) => Err::<RequestPatternLength, EncodeError>(e),
            None => Ok(utf8(string@).len() as u16),
        },
{
    let length = string.as_bytes().len();
    if length > RequestPatternLength::MAX as usize {
        Err(EncodeError::RequestPatternTooLong(length))
    } else {
        Ok(length as RequestPatternLength)
    }
}

fn get_key_length(string: &str) -> (r: EncodeResult<KeyLength>)
    ensures
        r == match key_error(string@) {
            Some(e) => Err::<KeyLength, EncodeError>(e),
            None => Ok(utf8(string@).len() as u16),
        },
{
    let length = string.as_bytes().len();
    if length > KeyLength::MAX as usize {
        Err(EncodeError::KeyTooLong(length))
    } else {
        Ok(length as KeyLength)
    }
}

fn get_value_length(string: &str) -> (r: EncodeResult<ValueLength>)
    ensures
        r == match value_error(string@) {
            Some(e) => Err::<ValueLength, EncodeError>(e),
            None => Ok(utf8(string@).len() as u32),
        },
{
    let length = string.as_bytes().len();
    if length > ValueLength::MAX as usize {
        Err(EncodeError::ValueTooLong(length))
    } else {
        Ok(length as ValueLength)
    }
}

fn get_num_key_val_pairs(pairs: &KeyValuePairs) -> (r: EncodeResult<NumKeyValuePairs>)
    ensures
        r == if pairs.len() > u32::MAX {
            Err::<NumKeyValuePairs, EncodeError>(EncodeError::TooManyKeyValuePairs(pairs.len()))
        } else {
            Ok(pairs.len() as u32)
        },
{
    let length = pairs.len();
    if length > NumKeyValuePairs::MAX as usize {
        Err(EncodeError::TooManyKeyValuePairs(length))
    } else {
        Ok(length as NumKeyValuePairs)
    }
}

fn get_num_protocol_versions(versions: &ProtocolVersions) -> (r: EncodeResult<NumProtocolVersions>)
    ensures
        r == if versions.len() > u8::MAX {
            Err::<NumProtocolVersions, EncodeError>(
                EncodeError::TooManyProtocolVersions(versions.len()),
            )
        } else {
            Ok(versions.len() as u8)
        },
{
    let length = versions.len();
    if length > NumProtocolVersions::MAX as usize {
        Err(EncodeError::TooManyProtocolVersions(length))
    } else {
        Ok(length as NumProtocolVersions)
    }
}

fn get_metadata_length(string: &str) -> (r: EncodeResult<MetaDataLength>)
    ensures
        r == if utf8(string@).len() > u32::MAX {
            Err::<MetaDataLength, EncodeError>(
                EncodeError::MetaDataTooLong(utf8(string@).len() as usize),
            )
        } else {
            Ok(utf8(string@).len() as u32)
        },
{
    let length = string.as_bytes().len();
    if length > MetaDataLength::MAX as usize {
        Err(EncodeError::MetaDataTooLong(length))
    } else {
        Ok(length as MetaDataLength)
    }
}

fn get_path_length(string: &str) -> (r: EncodeResult<PathLength>)
    ensures
        r == match path_error(string@) {
            Some(e) => Err::<PathLength, EncodeError>(e),
            None => Ok(utf8(string@).len() as u16),
        },
{
    let length = string.as_bytes().len();
    if length > PathLength::MAX as usize {
        Err(EncodeError::PathTooLong(length))
    } else {
        Ok(length as PathLength)
    }
}

} // verus!
