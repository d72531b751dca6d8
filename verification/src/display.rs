//! The messages of the server as text for a reader.

use crate::codec;
use crate::codec::{KeyValuePair, KeyValueView, ProtocolVersion};
use crate::key::path_view;
use crate::server;
use crate::server::{pair_views, PStateEvent, PStateEventView, StateEvent, StateEventView};
use crate::text::{char_string, concat2, concat3, decimal, decimal_string};
use vstd::prelude::*;
use vstd::string::StringExecFns;

verus! {

/// A pair as `key=value`.
pub open spec fn pair_text(pair: KeyValueView) -> Seq<char> {
    pair.key + "="@ + pair.value
}

/// The first `upto` texts, one on each line.
pub open spec fn lines(texts: Seq<Seq<char>>, upto: int) -> Seq<char>
    decreases upto,
{
    if upto <= 0 {
        Seq::empty()
    } else if upto == 1 {
        texts[0]
    } else {
        lines(texts, upto - 1) + "\n"@ + texts[upto - 1]
    }
}

/// The pairs as texts.
pub open spec fn pair_texts(pairs: Seq<KeyValueView>) -> Seq<Seq<char>> {
    pairs.map_values(|p: KeyValueView| pair_text(p))
}

/// The keys as texts that say that they are deleted.
pub open spec fn deleted_texts(keys: Seq<Seq<char>>) -> Seq<Seq<char>> {
    keys.map_values(|k: Seq<char>| k + " deleted"@)
}

/// A version as `major.minor`.
pub open spec fn version_text(version: ProtocolVersion) -> Seq<char> {
    decimal(version.major as nat) + "."@ + decimal(version.minor as nat)
}

/// The first `upto` versions, with a comma and a blank between neighbours.
pub open spec fn version_list(versions: Seq<ProtocolVersion>, upto: int) -> Seq<char>
    decreases upto,
{
    if upto <= 0 {
        Seq::empty()
    } else if upto == 1 {
        version_text(versions[0])
    } else {
        version_list(versions, upto - 1) + ", "@ + version_text(versions[upto - 1])
    }
}

/// The start of the text of a handshake, up to the versions.
pub open spec fn handshake_start(separator: char, wildcard: char, multi_wildcard: char) -> Seq<char> {
    "handshake: separator: '"@ + seq![separator] + "', wildcard: '"@ + seq![wildcard]
        + "', multi-wildcard: '"@ + seq![multi_wildcard] + "', supported protocol versions: "@
}

/// The text of an event of a pattern subscription: one line for each pair
/// or deleted key.
pub open spec fn pstate_event_text(event: PStateEventView) -> Seq<char> {
    match event {
        PStateEventView::KeyValuePairs(pairs) => lines(pair_texts(pairs), pairs.len() as int),
        PStateEventView::Deleted(keys) => lines(deleted_texts(keys), keys.len() as int),
    }
}

/// The text of an event of a key subscription.
pub open spec fn state_event_text(event: StateEventView) -> Seq<char> {
    match event {
        StateEventView::KeyValue(pair) => pair_text(pair),
        StateEventView::Deleted(key) => key + " deleted"@,
    }
}

/// The text of a pair.
pub fn pair_to_text(pair: &KeyValuePair) -> (text: String)
    ensures
        text@ == pair_text(pair@),
{
    concat3(pair.key.as_str(), "=", pair.value.as_str())
}

/// The text of a version.
pub fn version_to_text(version: &ProtocolVersion) -> (text: String)
    ensures
        text@ == version_text(*version),
{
    let major = decimal_string(version.major as u64);
    let minor = decimal_string(version.minor as u64);
    concat3(major.as_str(), ".", minor.as_str())
}

/// The pairs as text, one on each line.
pub fn pairs_to_text(pairs: &Vec<KeyValuePair>) -> (text: String)
    ensures
        text@ == lines(pair_texts(codec::pair_views(pairs@)), pairs@.len() as int),
{
    let ghost texts = pair_texts(codec::pair_views(pairs@));
    let mut text = String::new();
    let mut i: usize = 0;
    while i < pairs.len()
        invariant
            i <= pairs.len(),
            texts == pair_texts(codec::pair_views(pairs@)),
            text@ == lines(texts, i as int),
        decreases pairs.len() - i,
    {
        let line = pair_to_text(&pairs[i]);
        assert(texts[i as int] == line@);
        if i > 0 {
            text.append("\n");
            text.append(line.as_str());
        } else {
            text.append(line.as_str());
            assert(text@ =~= line@);
        }
        i += 1;
    }
    text
}

/// The keys as text that says that they are deleted, one on each line.
pub fn deleted_to_text(keys: &Vec<String>) -> (text: String)
    ensures
        text@ == lines(deleted_texts(path_view(keys@)), keys@.len() as int),
{
    let ghost texts = deleted_texts(path_view(keys@));
    let mut text = String::new();
    let mut i: usize = 0;
    while i < keys.len()
        invariant
            i <= keys.len(),
            texts == deleted_texts(path_view(keys@)),
            text@ == lines(texts, i as int),
        decreases keys.len() - i,
    {
        let line = concat2(keys[i].as_str(), " deleted");
        assert(texts[i as int] == line@);
        if i > 0 {
            text.append("\n");
            text.append(line.as_str());
        } else {
            text.append(line.as_str());
            assert(text@ =~= line@);
        }
        i += 1;
    }
    text
}

/// The start of the text of a handshake.
pub fn handshake_start_text(separator: char, wildcard: char, multi_wildcard: char) -> (text: String)
    ensures
        text@ == handshake_start(separator, wildcard, multi_wildcard),
{
    let mut text = String::from_str("handshake: separator: '");
    text.append(char_string(separator).as_str());
    text.append("', wildcard: '");
    text.append(char_string(wildcard).as_str());
    text.append("', multi-wildcard: '");
    text.append(char_string(multi_wildcard).as_str());
    text.append("', supported protocol versions: ");
    text
}

impl codec::PState {
    /// The pairs, one on each line as `key=value`.
    pub fn to_text(&self) -> (text: String)
        ensures
            text@ == lines(
                pair_texts(codec::pair_views(self.key_value_pairs@)),
                self.key_value_pairs@.len() as int,
            ),
    {
        pairs_to_text(&self.key_value_pairs)
    }
}

impl codec::Ack {
    /// `ack` and the transaction id.
    pub fn to_text(&self) -> (text: String)
        ensures
            text@ == "ack "@ + decimal(self.transaction_id as nat),
    {
        let tid = decimal_string(self.transaction_id);
        concat2("ack ", tid.as_str())
    }
}

impl codec::State {
    /// The pair as `key=value`.
    pub fn to_text(&self) -> (text: String)
        ensures
            text@ == pair_text(self.key_value@),
    {
        pair_to_text(&self.key_value)
    }
}

impl codec::ErrorReply {
    /// `server error`, the code and the metadata.
    pub fn to_text(&self) -> (text: String)
        ensures
            text@ == "server error "@ + decimal(self.error_code as nat) + ": "@ + self.metadata@,
    {
        let code = decimal_string(self.error_code as u64);
        let mut text = concat3("server error ", code.as_str(), ": ");
        text.append(self.metadata.as_str());
        text
    }
}

impl codec::Handshake {
    /// The three characters and the versions.
    pub fn to_text(&self) -> (text: String)
        ensures
            text@ == handshake_start(self.separator, self.wildcard, self.multi_wildcard)
                + version_list(
                self.supported_protocol_versions@,
                self.supported_protocol_versions@.len() as int,
            ),
    {
        let start = handshake_start_text(self.separator, self.wildcard, self.multi_wildcard);
        let mut list = String::new();
        let mut i: usize = 0;
        while i < self.supported_protocol_versions.len()
            invariant
                i <= self.supported_protocol_versions.len(),
                list@ == version_list(self.supported_protocol_versions@, i as int),
            decreases self.supported_protocol_versions.len() - i,
        {
            let version = version_to_text(&self.supported_protocol_versions[i]);
            if i > 0 {
                list.append(", ");
                list.append(version.as_str());
            } else {
                list.append(version.as_str());
                assert(list@ =~= version@);
            }
            i += 1;
        }
        concat2(start.as_str(), list.as_str())
    }
}

impl server::PState {
    /// One line for each pair or deleted key.
    pub fn to_text(&self) -> (text: String)
        ensures
            text@ == pstate_event_text(self.event@),
    {
        match &self.event {
            PStateEvent::KeyValuePairs(pairs) => {
                assert(pair_views(pairs@) == codec::pair_views(pairs@));
                pairs_to_text(pairs)
            },
            PStateEvent::Deleted(keys) => deleted_to_text(keys),
        }
    }
}

impl server::Ack {
    /// `ack` and the transaction id.
    pub fn to_text(&self) -> (text: String)
        ensures
            text@ == "ack "@ + decimal(self.transaction_id as nat),
    {
        let tid = decimal_string(self.transaction_id);
        concat2("ack ", tid.as_str())
    }
}

impl server::State {
    /// The pair as `key=value`, or the key and that it is deleted.
    pub fn to_text(&self) -> (text: String)
        ensures
            text@ == state_event_text(self.event@),
    {
        match &self.event {
            StateEvent::KeyValue(pair) => pair_to_text(pair),
            StateEvent::Deleted(key) => concat2(key.as_str(), " deleted"),
        }
    }
}

impl server::Handshake {
    /// The three characters and the version.
    pub fn to_text(&self) -> (text: String)
        ensures
            text@ == handshake_start(self.separator, self.wildcard, self.multi_wildcard)
                + version_text(self.protocol_version),
    {
        let start = handshake_start_text(self.separator, self.wildcard, self.multi_wildcard);
        let version = version_to_text(&self.protocol_version);
        concat2(start.as_str(), version.as_str())
    }
}

} // verus!
