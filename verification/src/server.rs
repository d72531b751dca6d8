//! The messages that the server sends.

use crate::codec::{KeyValuePair, KeyValueView, ProtocolVersion};
use crate::error::ErrorCode;
use crate::key::path_view;
use vstd::prelude::*;

verus! {

pub type TransactionId = u64;

pub type RequestPattern = String;

pub type Key = String;

pub type Value = String;

pub type KeyValuePairs = Vec<KeyValuePair>;

pub type Keys = Vec<Key>;

pub type MetaData = String;

pub type Separator = char;

pub type Wildcard = char;

pub type MultiWildcard = char;

pub type RegularKeySegment = String;

#[derive(Debug, Clone, PartialEq, Eq)]
pub enum ServerMessage {
    Welcome(Welcome),
    PState(PState),
    Ack(Ack),
    State(State),
    ErrorReply(ErrorReply),
    Authenticated(Ack),
    LsState(LsState),
    Handshake(Handshake),
    Keepalive,
}

#[derive(Debug, Clone, PartialEq, Eq)]
pub struct ServerInfo {
    pub version: String,
    pub authentication_required: bool,
    pub protocol_version: ProtocolVersion,
}

#[derive(Debug, Clone, PartialEq, Eq)]
pub struct Welcome {
    pub info: ServerInfo,
    pub client_id: String,
}

#[derive(Debug, Clone, PartialEq, Eq)]
pub struct PState {
    pub transaction_id: TransactionId,
    pub request_pattern: RequestPattern,
    pub event: PStateEvent,
}

/// What happened to the keys of a pattern subscription.
#[derive(Debug, Clone, PartialEq, Eq)]
pub enum PStateEvent {
    KeyValuePairs(KeyValuePairs),
    Deleted(Keys),
}

#[derive(Debug, Clone, Copy, PartialEq, Eq, Hash, Structural)]
pub struct Ack {
    pub transaction_id: TransactionId,
}

#[derive(Debug, Clone, PartialEq, Eq)]
pub struct State {
    pub transaction_id: TransactionId,
    pub event: StateEvent,
}

/// What happened to one key.
#[derive(Debug, Clone, PartialEq, Eq)]
pub enum StateEvent {
    KeyValue(KeyValuePair),
    Deleted(Key),
}

#[derive(Debug, Clone, PartialEq, Eq)]
pub struct LsState {
    pub transaction_id: TransactionId,
    pub children: Vec<RegularKeySegment>,
}

#[derive(Debug, Clone, PartialEq, Eq)]
pub struct ErrorReply {
    pub transaction_id: TransactionId,
    pub error_code: ErrorCode,
    pub metadata: MetaData,
}

#[derive(Debug, Clone, PartialEq, Eq, Hash)]
pub struct Handshake {
    pub protocol_version: ProtocolVersion,
    pub separator: Separator,
    pub wildcard: Wildcard,
    pub multi_wildcard: MultiWildcard,
}

/// An event of a pattern subscription as a mathematical value.
pub enum PStateEventView {
    KeyValuePairs(Seq<KeyValueView>),
    Deleted(Seq<Seq<char>>),
}

/// An event of a key subscription as a mathematical value.
pub enum StateEventView {
    KeyValue(KeyValueView),
    Deleted(Seq<char>),
}

/// The views of a list of pairs, in order.
pub open spec fn pair_views(pairs: Seq<KeyValuePair>) -> Seq<KeyValueView> {
    pairs.map_values(|p: KeyValuePair| p@)
}

impl View for PStateEvent {
    type V = PStateEventView;

    open spec fn view(&self) -> PStateEventView {
        match self {
            PStateEvent::KeyValuePairs(pairs) => PStateEventView::KeyValuePairs(pair_views(pairs@)),
            PStateEvent::Deleted(keys) => PStateEventView::Deleted(path_view(keys@)),
        }
    }
}

impl View for StateEvent {
    type V = StateEventView;

    open spec fn view(&self) -> StateEventView {
        match self {
            StateEvent::KeyValue(pair) => StateEventView::KeyValue(pair@),
            StateEvent::Deleted(key) => StateEventView::Deleted(key@),
        }
    }
}

/// The views of a list of events, in order.
pub open spec fn state_event_views(events: Seq<StateEvent>) -> Seq<StateEventView> {
    events.map_values(|e: StateEvent| e@)
}

/// The single events that an event of a pattern subscription stands for:
/// one for each pair, or one for each deleted key, in order.
pub open spec fn single_events(event: PStateEventView) -> Seq<StateEventView> {
    match event {
        PStateEventView::KeyValuePairs(pairs) => pairs.map_values(
            |p: KeyValueView| StateEventView::KeyValue(p),
        ),
        PStateEventView::Deleted(keys) => keys.map_values(
            |k: Seq<char>| StateEventView::Deleted(k),
        ),
    }
}

/// The values that an event of a pattern subscription carries: that of each
/// pair, and none for each deleted key, in order.
pub open spec fn event_values(event: PStateEventView) -> Seq<Option<Seq<char>>> {
    match event {
        PStateEventView::KeyValuePairs(pairs) => pairs.map_values(
            |p: KeyValueView| Some(p.value),
        ),
        PStateEventView::Deleted(keys) => keys.map_values(|k: Seq<char>| None::<Seq<char>>),
    }
}

/// The views of a list of optional values, in order.
pub open spec fn option_views(values: Seq<Option<Value>>) -> Seq<Option<Seq<char>>> {
    values.map_values(
        |v: Option<Value>|
            match v {
                Some(s) => Some(s@),
                None => None,
            },
    )
}

impl ServerMessage {
    /// The transaction that the message belongs to; a message that belongs
    /// to none gives 0.
    pub fn transaction_id(&self) -> (tid: u64)
        ensures
            tid == match self {
                ServerMessage::PState(msg) => msg.transaction_id,
                ServerMessage::Ack(msg) => msg.transaction_id,
                ServerMessage::State(msg) => msg.transaction_id,
                ServerMessage::ErrorReply(msg) => msg.transaction_id,
                ServerMessage::Authenticated(msg) => msg.transaction_id,
                ServerMessage::LsState(msg) => msg.transaction_id,
                ServerMessage::Welcome(_) => 0,
                ServerMessage::Handshake(_) => 0,
                ServerMessage::Keepalive => 0,
            },
    {
        match self {
            ServerMessage::PState(msg) => msg.transaction_id,
            ServerMessage::Ack(msg) => msg.transaction_id,
            ServerMessage::State(msg) => msg.transaction_id,
            ServerMessage::ErrorReply(msg) => msg.transaction_id,
            ServerMessage::Authenticated(msg) => msg.transaction_id,
            ServerMessage::LsState(msg) => msg.transaction_id,
            ServerMessage::Welcome(_) => 0,
            ServerMessage::Handshake(_) => 0,
            ServerMessage::Keepalive => 0,
        }
    }
}

impl From<KeyValuePair> for StateEvent {
    fn from(kvp: KeyValuePair) -> (event: Self) {
        StateEvent::KeyValue(kvp)
    }
}

impl vstd::std_specs::convert::FromSpecImpl<KeyValuePair> for StateEvent {
    open spec fn obeys_from_spec() -> bool {
        true
    }

    open spec fn from_spec(kvp: KeyValuePair) -> Self {
        StateEvent::KeyValue(kvp)
    }
}

impl StateEvent {
    /// The value that the event carries: that of its pair, none for a
    /// deleted key.
    pub fn into_value(self) -> (value: Option<Value>)
        ensures
            match self {
                StateEvent::KeyValue(kv) => value == Some(kv.value),
                StateEvent::Deleted(_) => value is None,
            },
    {
        match self {
            StateEvent::KeyValue(kv) => Some(kv.value),
            StateEvent::Deleted(_) => None,
        }
    }
}

impl State {
    /// The value that the state carries.
    pub fn into_value(self) -> (value: Option<Value>)
        ensures
            match self.event {
                StateEvent::KeyValue(kv) => value == Some(kv.value),
                StateEvent::Deleted(_) => value is None,
            },
    {
        self.event.into_value()
    }
}

impl PStateEvent {
    /// The single events that this event stands for.
    pub fn into_state_events(self) -> (events: Vec<StateEvent>)
        ensures
            state_event_views(events@) == single_events(self@),
    {
        let mut events: Vec<StateEvent> = Vec::new();
        match self {
            PStateEvent::KeyValuePairs(kvps) => {
                let ghost pairs = kvps@;
                let ghost expected = single_events(PStateEventView::KeyValuePairs(pair_views(pairs)));
                for kvp in it: kvps
                    invariant
                        it.seq() == pairs,
                        expected == single_events(
                            PStateEventView::KeyValuePairs(pair_views(pairs)),
                        ),
                        state_event_views(events@) == expected.subrange(0, it.index() as int),
                {
                    let ghost before = state_event_views(events@);
                    events.push(StateEvent::KeyValue(kvp));
                    assert(state_event_views(events@) =~= before.push(
                        StateEventView::KeyValue(kvp@),
                    ));
                    assert(state_event_views(events@) =~= expected.subrange(0, it.index() + 1));
                }
                assert(state_event_views(events@) =~= expected);
            },
            PStateEvent::Deleted(keys) => {
                let ghost names = keys@;
                let ghost expected = single_events(PStateEventView::Deleted(path_view(names)));
                for key in it: keys
                    invariant
                        it.seq() == names,
                        expected == single_events(PStateEventView::Deleted(path_view(names))),
                        state_event_views(events@) == expected.subrange(0, it.index() as int),
                {
                    let ghost before = state_event_views(events@);
                    events.push(StateEvent::Deleted(key));
                    assert(state_event_views(events@) =~= before.push(
                        StateEventView::Deleted(key@),
                    ));
                    assert(state_event_views(events@) =~= expected.subrange(0, it.index() + 1));
                }
                assert(state_event_views(events@) =~= expected);
            },
        }
        events
    }

    /// The values that this event carries.
    pub fn into_values(self) -> (values: Vec<Option<Value>>)
        ensures
            option_views(values@) == event_values(self@),
    {
        let mut values: Vec<Option<Value>> = Vec::new();
        match self {
            PStateEvent::KeyValuePairs(kvps) => {
                let ghost pairs = kvps@;
                let ghost expected = event_values(PStateEventView::KeyValuePairs(pair_views(pairs)));
                for kvp in it: kvps
                    invariant
                        it.seq() == pairs,
                        expected == event_values(PStateEventView::KeyValuePairs(pair_views(pairs))),
                        option_views(values@) == expected.subrange(0, it.index() as int),
                {
                    let ghost before = option_views(values@);
                    let ghost value = kvp.value@;
                    values.push(Some(kvp.value));
                    assert(option_views(values@) =~= before.push(Some(value)));
                    assert(option_views(values@) =~= expected.subrange(0, it.index() + 1));
                }
                assert(option_views(values@) =~= expected);
            },
            PStateEvent::Deleted(keys) => {
                let ghost names = keys@;
                let ghost expected = event_values(PStateEventView::Deleted(path_view(names)));
                for key in it: keys
                    invariant
                        it.seq() == names,
                        expected == event_values(PStateEventView::Deleted(path_view(names))),
                        option_views(values@) == expected.subrange(0, it.index() as int),
                {
                    let ghost before = option_views(values@);
                    values.push(None);
                    assert(option_views(values@) =~= before.push(None));
                    assert(option_views(values@) =~= expected.subrange(0, it.index() + 1));
                }
                assert(option_views(values@) =~= expected);
            },
        }
        values
    }
}

impl PState {
    /// The single events that this state stands for.
    pub fn into_state_events(self) -> (events: Vec<StateEvent>)
        ensures
            state_event_views(events@) == single_events(self.event@),
    {
        self.event.into_state_events()
    }

    /// The values that this state carries.
    pub fn into_values(self) -> (values: Vec<Option<Value>>)
        ensures
            option_views(values@) == event_values(self.event@),
    {
        self.event.into_values()
    }
}

} // verus!
