//! The messages that a client sends.

use crate::codec::{KeyValuePair, ProtocolVersion};
use vstd::prelude::*;

verus! {

pub type TransactionId = u64;

pub type RequestPattern = String;

pub type Key = String;

pub type Value = String;

pub type UniqueFlag = bool;

pub type LiveOnlyFlag = bool;

pub type AuthToken = String;

#[derive(Debug, Clone, PartialEq, Eq)]
pub enum ClientMessage {
    HandshakeRequest(HandshakeRequest),
    AuthenticationRequest(AuthenticationRequest),
    Get(Get),
    PGet(PGet),
    SetValue(SetValue),
    Publish(Publish),
    Subscribe(Subscribe),
    PSubscribe(PSubscribe),
    Unsubscribe(Unsubscribe),
    Delete(Delete),
    PDelete(PDelete),
    Ls(Ls),
    SubscribeLs(SubscribeLs),
    UnsubscribeLs(UnsubscribeLs),
    Keepalive,
}

/// What a client says of itself when it has connected: the versions of the
/// protocol that it speaks, the values that are to be stored when it is
/// gone, and the patterns of the keys that are to be deleted then.
#[derive(Debug, Clone, PartialEq, Eq)]
pub struct HandshakeRequest {
    pub supported_protocol_versions: Vec<ProtocolVersion>,
    pub last_will: Vec<KeyValuePair>,
    pub grave_goods: Vec<RequestPattern>,
}

#[derive(Debug, Clone, PartialEq, Eq)]
pub struct AuthenticationRequest {
    pub auth_token: AuthToken,
}

#[derive(Debug, Clone, PartialEq, Eq)]
pub struct Get {
    pub transaction_id: TransactionId,
    pub key: Key,
}

#[derive(Debug, Clone, PartialEq, Eq)]
pub struct PGet {
    pub transaction_id: TransactionId,
    pub request_pattern: RequestPattern,
}

#[derive(Debug, Clone, PartialEq, Eq)]
pub struct SetValue {
    pub transaction_id: TransactionId,
    pub key: Key,
    pub value: Value,
}

#[derive(Debug, Clone, PartialEq, Eq)]
pub struct Publish {
    pub transaction_id: TransactionId,
    pub key: Key,
    pub value: Value,
}

#[derive(Debug, Clone, PartialEq, Eq)]
pub struct Subscribe {
    pub transaction_id: TransactionId,
    pub key: Key,
    pub unique: UniqueFlag,
    pub live_only: Option<LiveOnlyFlag>,
}

#[derive(Debug, Clone, PartialEq, Eq)]
pub struct PSubscribe {
    pub transaction_id: TransactionId,
    pub request_pattern: RequestPattern,
    pub unique: UniqueFlag,
    pub aggregate_events: Option<u64>,
    pub live_only: Option<LiveOnlyFlag>,
}

#[derive(Debug, Clone, Copy, PartialEq, Eq, Structural)]
pub struct Unsubscribe {
    pub transaction_id: TransactionId,
}

#[derive(Debug, Clone, PartialEq, Eq)]
pub struct Delete {
    pub transaction_id: TransactionId,
    pub key: Key,
}

#[derive(Debug, Clone, PartialEq, Eq)]
pub struct PDelete {
    pub transaction_id: TransactionId,
    pub request_pattern: RequestPattern,
}

#[derive(Debug, Clone, PartialEq, Eq)]
pub struct Ls {
    pub transaction_id: TransactionId,
    pub parent: Option<Key>,
}

#[derive(Debug, Clone, PartialEq, Eq)]
pub struct SubscribeLs {
    pub transaction_id: TransactionId,
    pub parent: Option<Key>,
}

#[derive(Debug, Clone, Copy, PartialEq, Eq, Structural)]
pub struct UnsubscribeLs {
    pub transaction_id: TransactionId,
}

impl ClientMessage {
    /// The transaction that the message starts; a message that starts none
    /// gives 0.
    pub open spec fn tid(self) -> u64 {
        match self {
            ClientMessage::HandshakeRequest(_) => 0,
            ClientMessage::AuthenticationRequest(_) => 0,
            ClientMessage::Get(m) => m.transaction_id,
            ClientMessage::PGet(m) => m.transaction_id,
            ClientMessage::SetValue(m) => m.transaction_id,
            ClientMessage::Publish(m) => m.transaction_id,
            ClientMessage::Subscribe(m) => m.transaction_id,
            ClientMessage::PSubscribe(m) => m.transaction_id,
            ClientMessage::Unsubscribe(m) => m.transaction_id,
            ClientMessage::Delete(m) => m.transaction_id,
            ClientMessage::PDelete(m) => m.transaction_id,
            ClientMessage::Ls(m) => m.transaction_id,
            ClientMessage::SubscribeLs(m) => m.transaction_id,
            ClientMessage::UnsubscribeLs(m) => m.transaction_id,
            ClientMessage::Keepalive => 0,
        }
    }

    pub fn transaction_id(&self) -> (tid: TransactionId)
        ensures
            tid == self.tid(),
    {
        match self {
            ClientMessage::HandshakeRequest(_) => 0,
            ClientMessage::AuthenticationRequest(_) => 0,
            ClientMessage::Get(m) => m.transaction_id,
            ClientMessage::PGet(m) => m.transaction_id,
            ClientMessage::SetValue(m) => m.transaction_id,
            ClientMessage::Publish(m) => m.transaction_id,
            ClientMessage::Subscribe(m) => m.transaction_id,
            ClientMessage::PSubscribe(m) => m.transaction_id,
            ClientMessage::Unsubscribe(m) => m.transaction_id,
            ClientMessage::Delete(m) => m.transaction_id,
            ClientMessage::PDelete(m) => m.transaction_id,
            ClientMessage::Ls(m) => m.transaction_id,
            ClientMessage::SubscribeLs(m) => m.transaction_id,
            ClientMessage::UnsubscribeLs(m) => m.transaction_id,
            ClientMessage::Keepalive => 0,
        }
    }
}

} // verus!
