//! Reading the binary framing.
//!
//! A frame is read from the start of a buffer. Where the buffer ends before
//! the frame does, more bytes are needed; what follows the frame is left
//! alone. Reading what `codec` wrote gives back what was written.

use crate::codec::{
    char_byte, flag, pair_error, head, length_field, pair_lengths, pair_payload, version_bytes, Ack,
    ClientMessage, ErrorReply, Export, Frame, Get, Handshake, Import, KeyValuePair, KeyValueView,
    PGet, PState, PSubscribe, ProtocolVersion, ServerMessage, SetValue, State, Subscribe,
    Unsubscribe, ACK, ERR, EXP, GET, HSHK, IMP, PGET, PSTA, PSUB, SET, STA, SUB, USUB,
};
use crate::encoding::{
    be_bytes, be_limit, be_value, lemma_be_bytes_len, lemma_be_limits, lemma_be_value_bound,
    lemma_be_value_of_bytes, utf8,
};
use vstd::prelude::*;
use vstd::utf8::{decode_utf8, encode_utf8_decode_utf8, encode_utf8_valid_utf8, valid_utf8};

verus! {

/// Why no frame could be read.
#[derive(Debug, Clone, Copy, PartialEq, Eq, Structural)]
pub enum DecodeError {
    /// The buffer ends before the frame does.
    Incomplete,
    /// The first byte names no message type that can be read here.
    UndefinedType(u8),
    /// A text field is no UTF-8.
    InvalidUtf8,
}

/// The number that the `width` bytes from `at` on stand for.
pub open spec fn number(bytes: Seq<u8>, at: int, width: int) -> int {
    be_value(bytes.subrange(at, at + width)) as int
}

/// The `len` bytes from `at` on.
pub open spec fn field(bytes: Seq<u8>, at: int, len: int) -> Seq<u8> {
    bytes.subrange(at, at + len)
}

/// What is read, or why not, of a frame with a transaction id and one
/// text with a length of two bytes: the id, the text, and where the text
/// ends.
pub open spec fn read_text_frame(bytes: Seq<u8>) -> Result<(u64, Seq<char>, int), DecodeError> {
    if bytes.len() < 11 {
        Err(DecodeError::Incomplete)
    } else {
        let len = number(bytes, 9, 2);
        if bytes.len() < 11 + len {
            Err(DecodeError::Incomplete)
        } else if !valid_utf8(field(bytes, 11, len)) {
            Err(DecodeError::InvalidUtf8)
        } else {
            Ok((number(bytes, 1, 8) as u64, decode_utf8(field(bytes, 11, len)), 11 + len))
        }
    }
}

/// The same for a frame with a flag behind the text: the id, the text, the
/// flag, and where the frame ends.
pub open spec fn read_flagged_frame(bytes: Seq<u8>) -> Result<
    (u64, Seq<char>, bool, int),
    DecodeError,
> {
    if bytes.len() < 11 {
        Err(DecodeError::Incomplete)
    } else {
        let len = number(bytes, 9, 2);
        if bytes.len() < 12 + len {
            Err(DecodeError::Incomplete)
        } else if !valid_utf8(field(bytes, 11, len)) {
            Err(DecodeError::InvalidUtf8)
        } else {
            Ok(
                (
                    number(bytes, 1, 8) as u64,
                    decode_utf8(field(bytes, 11, len)),
                    bytes[11 + len] != 0,
                    12 + len,
                ),
            )
        }
    }
}

/// The same for a frame with a key and a value: the id, the key, the
/// value, and where the frame ends.
pub open spec fn read_pair_frame(bytes: Seq<u8>) -> Result<
    (u64, Seq<char>, Seq<char>, int),
    DecodeError,
> {
    if bytes.len() < 15 {
        Err(DecodeError::Incomplete)
    } else {
        let klen = number(bytes, 9, 2);
        let vlen = number(bytes, 11, 4);
        if bytes.len() < 15 + klen + vlen {
            Err(DecodeError::Incomplete)
        } else if !valid_utf8(field(bytes, 15, klen)) {
            Err(DecodeError::InvalidUtf8)
        } else if !valid_utf8(field(bytes, 15 + klen, vlen)) {
            Err(DecodeError::InvalidUtf8)
        } else {
            Ok(
                (
                    number(bytes, 1, 8) as u64,
                    decode_utf8(field(bytes, 15, klen)),
                    decode_utf8(field(bytes, 15 + klen, vlen)),
                    15 + klen + vlen,
                ),
            )
        }
    }
}

/// The same for an error message: the id, the code, the metadata, and
/// where the frame ends.
pub open spec fn read_error_frame(bytes: Seq<u8>) -> Result<(u64, u8, Seq<char>, int), DecodeError> {
    if bytes.len() < 14 {
        Err(DecodeError::Incomplete)
    } else {
        let len = number(bytes, 10, 4);
        if bytes.len() < 14 + len {
            Err(DecodeError::Incomplete)
        } else if !valid_utf8(field(bytes, 14, len)) {
            Err(DecodeError::InvalidUtf8)
        } else {
            Ok(
                (
                    number(bytes, 1, 8) as u64,
                    bytes[9],
                    decode_utf8(field(bytes, 14, len)),
                    14 + len,
                ),
            )
        }
    }
}

/// The same for a frame that holds a transaction id only.
pub open spec fn read_id_frame(bytes: Seq<u8>) -> Result<(u64, int), DecodeError> {
    if bytes.len() < 9 {
        Err(DecodeError::Incomplete)
    } else {
        Ok((number(bytes, 1, 8) as u64, 9))
    }
}

/// The message of a client at the start of `bytes`, with its length in
/// bytes.
pub open spec fn client_frame(bytes: Seq<u8>) -> Result<(Frame, int), DecodeError> {
    if bytes.len() == 0 {
        Err(DecodeError::Incomplete)
    } else if bytes[0] == GET {
        match read_text_frame(bytes) {
            Ok((transaction_id, key, end)) => Ok((Frame::Get { transaction_id, key }, end)),
            Err(e) => Err(e),
        }
    } else if bytes[0] == PGET {
        match read_text_frame(bytes) {
            Ok((transaction_id, request_pattern, end)) => Ok(
                (Frame::PGet { transaction_id, request_pattern }, end),
            ),
            Err(e) => Err(e),
        }
    } else if bytes[0] == EXP {
        match read_text_frame(bytes) {
            Ok((transaction_id, path, end)) => Ok((Frame::Export { transaction_id, path }, end)),
            Err(e) => Err(e),
        }
    } else if bytes[0] == IMP {
        match read_text_frame(bytes) {
            Ok((transaction_id, path, end)) => Ok((Frame::Import { transaction_id, path }, end)),
            Err(e) => Err(e),
        }
    } else if bytes[0] == SET {
        match read_pair_frame(bytes) {
            Ok((transaction_id, key, value, end)) => Ok(
                (Frame::SetValue { transaction_id, key, value }, end),
            ),
            Err(e) => Err(e),
        }
    } else if bytes[0] == SUB {
        match read_flagged_frame(bytes) {
            Ok((transaction_id, key, unique, end)) => Ok(
                (Frame::Subscribe { transaction_id, key, unique }, end),
            ),
            Err(e) => Err(e),
        }
    } else if bytes[0] == PSUB {
        match read_flagged_frame(bytes) {
            Ok((transaction_id, request_pattern, unique, end)) => Ok(
                (Frame::PSubscribe { transaction_id, request_pattern, unique }, end),
            ),
            Err(e) => Err(e),
        }
    } else if bytes[0] == USUB {
        match read_id_frame(bytes) {
            Ok((transaction_id, end)) => Ok((Frame::Unsubscribe { transaction_id }, end)),
            Err(e) => Err(e),
        }
    } else {
        Err(DecodeError::UndefinedType(bytes[0]))
    }
}

/// The big-endian number in the `width` bytes from `at` on.
pub fn read_number(bytes: &[u8], at: usize, width: usize) -> (x: u64)
    requires
        width <= 8,
        at + width <= bytes@.len(),
    ensures
        x == number(bytes@, at as int, width as int),
        x < be_limit(width as nat),
{
    let mut x: u64 = 0;
    let mut i: usize = 0;
    let size = bytes.len();
    proof {
        reveal_with_fuel(be_limit, 10);
        assert(bytes@.subrange(at as int, at as int) =~= Seq::<u8>::empty());
    }
    while i < width
        invariant
            i <= width <= 8,
            at + width <= bytes@.len(),
            size == bytes@.len(),
            x == be_value(bytes@.subrange(at as int, at + i)),
            x < be_limit(i as nat),
        decreases width - i,
    {
        proof {
            reveal_with_fuel(be_limit, 10);
            let upto = bytes@.subrange(at as int, at + i + 1);
            assert(upto.drop_last() =~= bytes@.subrange(at as int, at + i));
            assert(upto.last() == bytes@[at + i]);
        }
        x = x * 256 + bytes[at + i] as u64;
        i += 1;
    }
    x
}

/// A copy of the `len` bytes from `at` on.
pub fn copy_field(bytes: &[u8], at: usize, len: usize) -> (copy: Vec<u8>)
    requires
        at + len <= bytes@.len(),
    ensures
        copy@ == field(bytes@, at as int, len as int),
{
    let mut copy: Vec<u8> = Vec::new();
    let mut i: usize = 0;
    let size = bytes.len();
    while i < len
        invariant
            i <= len,
            at + len <= bytes@.len(),
            size == bytes@.len(),
            copy@ == bytes@.subrange(at as int, at + i),
        decreases len - i,
    {
        copy.push(bytes[at + i]);
        i += 1;
        assert(copy@ =~= bytes@.subrange(at as int, at + i));
    }
    copy
}

/// The string with the UTF-8 form `bytes`, made by `String::from_utf8`:
/// there is one where the bytes are valid UTF-8, and no other.
#[verifier::external_body]
pub(crate) fn string_from_utf8(bytes: Vec<u8>) -> (s: Option<String>)
    ensures
        match s {
            Some(text) => valid_utf8(bytes@) && utf8(text@) == bytes@,
            None => !valid_utf8(bytes@),
        },
{
    String::from_utf8(bytes).ok()
}

/// The text in the `len` bytes from `at` on.
pub fn read_text(bytes: &[u8], at: usize, len: usize) -> (r: Result<String, DecodeError>)
    requires
        at + len <= bytes@.len(),
    ensures
        match r {
            Ok(text) => valid_utf8(field(bytes@, at as int, len as int)) && text@ == decode_utf8(
                field(bytes@, at as int, len as int),
            ),
            Err(e) => !valid_utf8(field(bytes@, at as int, len as int)) && e
                == DecodeError::InvalidUtf8,
        },
{
    match string_from_utf8(copy_field(bytes, at, len)) {
        Some(text) => {
            proof {
                encode_utf8_decode_utf8(text@);
            }
            Ok(text)
        },
        None => Err(DecodeError::InvalidUtf8),
    }
}

/// Reads a frame with a transaction id and one text.
fn decode_text_frame(bytes: &[u8]) -> (r: Result<(u64, String, usize), DecodeError>)
    ensures
        match (r, read_text_frame(bytes@)) {
            (Ok(read), Ok(frame)) => read.0 == frame.0 && read.1@ == frame.1 && read.2 == frame.2,
            (Err(e), Err(error)) => e == error,
            _ => false,
        },
{
    if bytes.len() < 11 {
        return Err(DecodeError::Incomplete);
    }
    proof {
        lemma_be_limits();
    }
    let transaction_id = read_number(bytes, 1, 8);
    let len = read_number(bytes, 9, 2) as usize;
    if bytes.len() - 11 < len {
        return Err(DecodeError::Incomplete);
    }
    let text = read_text(bytes, 11, len)?;
    Ok((transaction_id, text, 11 + len))
}

/// Reads a frame with a transaction id, a text and a flag.
fn decode_flagged_frame(bytes: &[u8]) -> (r: Result<(u64, String, bool, usize), DecodeError>)
    ensures
        match (r, read_flagged_frame(bytes@)) {
            (Ok(read), Ok(frame)) => read.0 == frame.0 && read.1@ == frame.1 && read.2 == frame.2
                && read.3 == frame.3,
            (Err(e), Err(error)) => e == error,
            _ => false,
        },
{
    if bytes.len() < 11 {
        return Err(DecodeError::Incomplete);
    }
    proof {
        lemma_be_limits();
    }
    let transaction_id = read_number(bytes, 1, 8);
    let len = read_number(bytes, 9, 2) as usize;
    if bytes.len() - 11 < len + 1 {
        return Err(DecodeError::Incomplete);
    }
    let text = read_text(bytes, 11, len)?;
    let unique = bytes[11 + len] != 0;
    Ok((transaction_id, text, unique, 12 + len))
}

/// Reads a frame with a transaction id, a key and a value.
fn decode_pair_frame(bytes: &[u8]) -> (r: Result<(u64, String, String, usize), DecodeError>)
    ensures
        match (r, read_pair_frame(bytes@)) {
            (Ok(read), Ok(frame)) => read.0 == frame.0 && read.1@ == frame.1 && read.2@ == frame.2
                && read.3 == frame.3,
            (Err(e), Err(error)) => e == error,
            _ => false,
        },
{
    if bytes.len() < 15 {
        return Err(DecodeError::Incomplete);
    }
    proof {
        lemma_be_limits();
    }
    let transaction_id = read_number(bytes, 1, 8);
    let klen = read_number(bytes, 9, 2) as usize;
    let vlen = read_number(bytes, 11, 4);
    let rest = bytes.len() - 15;
    if rest < klen || ((rest - klen) as u64) < vlen {
        return Err(DecodeError::Incomplete);
    }
    let vlen = vlen as usize;
    let key = read_text(bytes, 15, klen)?;
    let value = read_text(bytes, 15 + klen, vlen)?;
    Ok((transaction_id, key, value, 15 + klen + vlen))
}

/// Reads an error message.
fn decode_error_frame(bytes: &[u8]) -> (r: Result<(u64, u8, String, usize), DecodeError>)
    ensures
        match (r, read_error_frame(bytes@)) {
            (Ok(read), Ok(frame)) => read.0 == frame.0 && read.1 == frame.1 && read.2@ == frame.2
                && read.3 == frame.3,
            (Err(e), Err(error)) => e == error,
            _ => false,
        },
{
    if bytes.len() < 14 {
        return Err(DecodeError::Incomplete);
    }
    proof {
        lemma_be_limits();
    }
    let transaction_id = read_number(bytes, 1, 8);
    let code = bytes[9];
    let len = read_number(bytes, 10, 4);
    if ((bytes.len() - 14) as u64) < len {
        return Err(DecodeError::Incomplete);
    }
    let len = len as usize;
    let metadata = read_text(bytes, 14, len)?;
    Ok((transaction_id, code, metadata, 14 + len))
}

/// Reads a frame that holds a transaction id only.
fn decode_id_frame(bytes: &[u8]) -> (r: Result<(u64, usize), DecodeError>)
    ensures
        match (r, read_id_frame(bytes@)) {
            (Ok(read), Ok(frame)) => read.0 == frame.0 && read.1 == frame.1,
            (Err(e), Err(error)) => e == error,
            _ => false,
        },
{
    if bytes.len() < 9 {
        return Err(DecodeError::Incomplete);
    }
    proof {
        lemma_be_limits();
    }
    Ok((read_number(bytes, 1, 8), 9))
}

/// Reads the message of a client from the start of `bytes` and says how
/// many bytes it takes.
pub fn decode_client_message(bytes: &[u8]) -> (r: Result<(ClientMessage, usize), DecodeError>)
    ensures
        match (r, client_frame(bytes@)) {
            (Ok(read), Ok(frame)) => read.0@ == frame.0 && read.1 == frame.1,
            (Err(e), Err(error)) => e == error,
            _ => false,
        },
{
    if bytes.len() == 0 {
        return Err(DecodeError::Incomplete);
    }
    let message_type = bytes[0];
    if message_type == GET {
        let (transaction_id, key, end) = decode_text_frame(bytes)?;
        Ok((ClientMessage::Get(Get { transaction_id, key }), end))
    } else if message_type == PGET {
        let (transaction_id, request_pattern, end) = decode_text_frame(bytes)?;
        Ok((ClientMessage::PGet(PGet { transaction_id, request_pattern }), end))
    } else if message_type == EXP {
        let (transaction_id, path, end) = decode_text_frame(bytes)?;
        Ok((ClientMessage::Export(Export { transaction_id, path }), end))
    } else if message_type == IMP {
        let (transaction_id, path, end) = decode_text_frame(bytes)?;
        Ok((ClientMessage::Import(Import { transaction_id, path }), end))
    } else if message_type == SET {
        let (transaction_id, key, value, end) = decode_pair_frame(bytes)?;
        Ok((ClientMessage::SetValue(SetValue { transaction_id, key, value }), end))
    } else if message_type == SUB {
        let (transaction_id, key, unique, end) = decode_flagged_frame(bytes)?;
        Ok((ClientMessage::Subscribe(Subscribe { transaction_id, key, unique }), end))
    } else if message_type == PSUB {
        let (transaction_id, request_pattern, unique, end) = decode_flagged_frame(bytes)?;
        Ok((ClientMessage::PSubscribe(PSubscribe { transaction_id, request_pattern, unique }), end))
    } else if message_type == USUB {
        let (transaction_id, end) = decode_id_frame(bytes)?;
        Ok((ClientMessage::Unsubscribe(Unsubscribe { transaction_id }), end))
    } else {
        Err(DecodeError::UndefinedType(message_type))
    }
}

/// The length of the key of the pair `i` of a pattern state, from the table
/// of lengths.
pub open spec fn key_length(bytes: Seq<u8>, i: int) -> int {
    number(bytes, 15 + 6 * i, 2)
}

/// The length of the value of the pair `i` of a pattern state.
pub open spec fn value_length(bytes: Seq<u8>, i: int) -> int {
    number(bytes, 17 + 6 * i, 4)
}

/// The length of the keys and values of the first `upto` pairs together.
pub open spec fn payload_length(bytes: Seq<u8>, upto: int) -> int
    decreases upto,
{
    if upto <= 0 {
        0
    } else {
        payload_length(bytes, upto - 1) + key_length(bytes, upto - 1) + value_length(
            bytes,
            upto - 1,
        )
    }
}

/// Where the key of the pair `i` of a pattern state starts.
pub open spec fn key_start(bytes: Seq<u8>, i: int) -> int {
    15 + 6 * number(bytes, 11, 4) + number(bytes, 9, 2) + payload_length(bytes, i)
}

/// The key and the value of the pair `i` are UTF-8.
pub open spec fn pair_is_text(bytes: Seq<u8>, i: int) -> bool {
    &&& valid_utf8(field(bytes, key_start(bytes, i), key_length(bytes, i)))
    &&& valid_utf8(field(bytes, key_start(bytes, i) + key_length(bytes, i), value_length(bytes, i)))
}

/// The pair `i` of a pattern state.
pub open spec fn pair_at(bytes: Seq<u8>, i: int) -> KeyValueView {
    KeyValueView {
        key: decode_utf8(field(bytes, key_start(bytes, i), key_length(bytes, i))),
        value: decode_utf8(
            field(bytes, key_start(bytes, i) + key_length(bytes, i), value_length(bytes, i)),
        ),
    }
}

/// The first `upto` pairs of a pattern state.
pub open spec fn pairs_read(bytes: Seq<u8>, upto: int) -> Seq<KeyValueView>
    decreases upto,
{
    if upto <= 0 {
        Seq::empty()
    } else {
        pairs_read(bytes, upto - 1).push(pair_at(bytes, upto - 1))
    }
}

/// What is read, or why not, of a pattern state.
pub open spec fn read_pstate_frame(bytes: Seq<u8>) -> Result<(Frame, int), DecodeError> {
    if bytes.len() < 15 {
        Err(DecodeError::Incomplete)
    } else {
        let plen = number(bytes, 9, 2);
        let n = number(bytes, 11, 4);
        if bytes.len() < 15 + 6 * n {
            Err(DecodeError::Incomplete)
        } else if bytes.len() < key_start(bytes, n) {
            Err(DecodeError::Incomplete)
        } else if !valid_utf8(field(bytes, 15 + 6 * n, plen)) {
            Err(DecodeError::InvalidUtf8)
        } else if exists|i: int| 0 <= i < n && !pair_is_text(bytes, i) {
            Err(DecodeError::InvalidUtf8)
        } else {
            Ok(
                (
                    Frame::PState {
                        transaction_id: number(bytes, 1, 8) as u64,
                        request_pattern: decode_utf8(field(bytes, 15 + 6 * n, plen)),
                        key_value_pairs: pairs_read(bytes, n),
                    },
                    key_start(bytes, n),
                ),
            )
        }
    }
}

/// The first `upto` protocol versions of a handshake.
pub open spec fn versions_read(bytes: Seq<u8>, upto: int) -> Seq<ProtocolVersion>
    decreases upto,
{
    if upto <= 0 {
        Seq::empty()
    } else {
        versions_read(bytes, upto - 1).push(
            ProtocolVersion {
                major: number(bytes, 2 + 4 * (upto - 1), 2) as u16,
                minor: number(bytes, 4 + 4 * (upto - 1), 2) as u16,
            },
        )
    }
}

/// What is read, or why not, of a handshake.
pub open spec fn read_handshake_frame(bytes: Seq<u8>) -> Result<(Frame, int), DecodeError> {
    if bytes.len() < 2 {
        Err(DecodeError::Incomplete)
    } else {
        let n = bytes[1] as int;
        if bytes.len() < 5 + 4 * n {
            Err(DecodeError::Incomplete)
        } else {
            Ok(
                (
                    Frame::Handshake {
                        supported_protocol_versions: versions_read(bytes, n),
                        separator: bytes[2 + 4 * n] as char,
                        wildcard: bytes[3 + 4 * n] as char,
                        multi_wildcard: bytes[4 + 4 * n] as char,
                    },
                    5 + 4 * n,
                ),
            )
        }
    }
}

/// The message of the server at the start of `bytes`, with its length in
/// bytes.
pub open spec fn server_frame(bytes: Seq<u8>) -> Result<(Frame, int), DecodeError> {
    if bytes.len() == 0 {
        Err(DecodeError::Incomplete)
    } else if bytes[0] == PSTA {
        read_pstate_frame(bytes)
    } else if bytes[0] == ACK {
        match read_id_frame(bytes) {
            Ok((transaction_id, end)) => Ok((Frame::Ack { transaction_id }, end)),
            Err(e) => Err(e),
        }
    } else if bytes[0] == STA {
        match read_pair_frame(bytes) {
            Ok((transaction_id, key, value, end)) => Ok(
                (Frame::State { transaction_id, key_value: KeyValueView { key, value } }, end),
            ),
            Err(e) => Err(e),
        }
    } else if bytes[0] == ERR {
        match read_error_frame(bytes) {
            Ok((transaction_id, error_code, metadata, end)) => Ok(
                (Frame::ErrorReply { transaction_id, error_code, metadata }, end),
            ),
            Err(e) => Err(e),
        }
    } else if bytes[0] == HSHK {
        read_handshake_frame(bytes)
    } else {
        Err(DecodeError::UndefinedType(bytes[0]))
    }
}

/// The lengths of the first pairs add up to no more than those of all.
pub proof fn lemma_payload_length_grows(bytes: Seq<u8>, i: int, j: int)
    requires
        0 <= i <= j,
    ensures
        0 <= payload_length(bytes, i) <= payload_length(bytes, j),
    decreases j,
{
    if i < j {
        lemma_payload_length_grows(bytes, i, j - 1);
    } else if i > 0 {
        lemma_payload_length_grows(bytes, i - 1, i - 1);
    }
}

/// Reads a pattern state.
fn decode_pstate_frame(bytes: &[u8]) -> (r: Result<(PState, usize), DecodeError>)
    ensures
        match (r, read_pstate_frame(bytes@)) {
            (Ok(read), Ok(frame)) => read.0@ == frame.0 && read.1 == frame.1,
            (Err(e), Err(error)) => e == error,
            _ => false,
        },
{
    if bytes.len() < 15 {
        return Err(DecodeError::Incomplete);
    }
    proof {
        lemma_be_limits();
    }
    let ghost all = bytes@;
    let size = bytes.len();
    let transaction_id = read_number(bytes, 1, 8);
    let plen = read_number(bytes, 9, 2) as usize;
    let n = read_number(bytes, 11, 4);
    if (size as u128) < 15 + 6 * (n as u128) {
        return Err(DecodeError::Incomplete);
    }
    let n = n as usize;
    let table_end = 15 + 6 * n;
    // the end of the frame, as far as the table of lengths has been read
    let mut end: u128 = table_end as u128 + plen as u128;
    let mut i: usize = 0;
    while i < n
        invariant
            i <= n,
            all == bytes@,
            size == all.len(),
            size >= 15 + 6 * n,
            n == number(all, 11, 4),
            plen == number(all, 9, 2),
            table_end == 15 + 6 * n,
            end == key_start(all, i as int),
            forall|j: int| 0 <= j <= i ==> key_start(all, j) <= end,
            i > 0 ==> key_start(all, i as int) <= size,
        decreases n - i,
    {
        proof {
            lemma_be_limits();
        }
        let klen = read_number(bytes, 15 + 6 * i, 2);
        let vlen = read_number(bytes, 17 + 6 * i, 4);
        let ghost before = end;
        end = end + klen as u128 + vlen as u128;
        proof {
            assert(end == key_start(all, i + 1));
            assert forall|j: int| 0 <= j <= i + 1 implies key_start(all, j) <= end by {
                if j <= i {
                    assert(key_start(all, j) <= before);
                }
            }
        }
        if end > size as u128 {
            proof {
                lemma_payload_length_grows(all, i + 1, n as int);
            }
            return Err(DecodeError::Incomplete);
        }
        i += 1;
    }
    if end > size as u128 {
        return Err(DecodeError::Incomplete);
    }
    let end = end as usize;
    proof {
        assert(key_start(all, 0) <= end);
        assert(payload_length(all, 0) == 0);
    }
    let request_pattern = read_text(bytes, table_end, plen)?;
    let mut key_value_pairs: Vec<KeyValuePair> = Vec::new();
    let mut at: usize = table_end + plen;
    let mut i: usize = 0;
    while i < n
        invariant
            i <= n,
            all == bytes@,
            size == all.len(),
            size >= 15 + 6 * n,
            n == number(all, 11, 4),
            plen == number(all, 9, 2),
            table_end == 15 + 6 * n,
            end == key_start(all, n as int),
            end <= size,
            at == key_start(all, i as int),
            valid_utf8(field(all, 15 + 6 * n, plen as int)),
            forall|j: int| 0 <= j < i ==> pair_is_text(all, j),
            crate::codec::pair_views(key_value_pairs@) == pairs_read(all, i as int),
        decreases n - i,
    {
        proof {
            lemma_be_limits();
            lemma_payload_length_grows(all, i + 1, n as int);
            lemma_payload_length_grows(all, i as int, i + 1);
        }
        let klen = read_number(bytes, 15 + 6 * i, 2) as usize;
        let vlen = read_number(bytes, 17 + 6 * i, 4) as usize;
        assert(at + klen + vlen == key_start(all, i + 1));
        let key = match read_text(bytes, at, klen) {
            Ok(key) => key,
            Err(e) => {
                assert(!pair_is_text(all, i as int));
                return Err(e);
            },
        };
        let value = match read_text(bytes, at + klen, vlen) {
            Ok(value) => value,
            Err(e) => {
                assert(!pair_is_text(all, i as int));
                return Err(e);
            },
        };
        assert(pair_is_text(all, i as int));
        let ghost before = crate::codec::pair_views(key_value_pairs@);
        let pair = KeyValuePair { key, value };
        key_value_pairs.push(pair);
        proof {
            assert(crate::codec::pair_views(key_value_pairs@) =~= before.push(pair@));
        }
        at = at + klen + vlen;
        i += 1;
    }
    Ok((PState { transaction_id, request_pattern, key_value_pairs }, end))
}

/// Reads a handshake.
fn decode_handshake_frame(bytes: &[u8]) -> (r: Result<(Handshake, usize), DecodeError>)
    ensures
        match (r, read_handshake_frame(bytes@)) {
            (Ok(read), Ok(frame)) => read.0@ == frame.0 && read.1 == frame.1,
            (Err(e), Err(error)) => e == error,
            _ => false,
        },
{
    if bytes.len() < 2 {
        return Err(DecodeError::Incomplete);
    }
    let n = bytes[1] as usize;
    if bytes.len() < 5 + 4 * n {
        return Err(DecodeError::Incomplete);
    }
    let ghost all = bytes@;
    let mut supported_protocol_versions: Vec<ProtocolVersion> = Vec::new();
    let mut i: usize = 0;
    while i < n
        invariant
            i <= n <= 255,
            all == bytes@,
            all.len() >= 5 + 4 * n,
            supported_protocol_versions@ == versions_read(all, i as int),
        decreases n - i,
    {
        proof {
            lemma_be_limits();
        }
        let major = read_number(bytes, 2 + 4 * i, 2) as u16;
        let minor = read_number(bytes, 4 + 4 * i, 2) as u16;
        supported_protocol_versions.push(ProtocolVersion { major, minor });
        i += 1;
        assert(supported_protocol_versions@ =~= versions_read(all, i as int));
    }
    let separator = bytes[2 + 4 * n] as char;
    let wildcard = bytes[3 + 4 * n] as char;
    let multi_wildcard = bytes[4 + 4 * n] as char;
    Ok(
        (
            Handshake { supported_protocol_versions, separator, wildcard, multi_wildcard },
            5 + 4 * n,
        ),
    )
}

/// Reads the message of the server from the start of `bytes` and says how
/// many bytes it takes.
pub fn decode_server_message(bytes: &[u8]) -> (r: Result<(ServerMessage, usize), DecodeError>)
    ensures
        match (r, server_frame(bytes@)) {
            (Ok(read), Ok(frame)) => read.0@ == frame.0 && read.1 == frame.1,
            (Err(e), Err(error)) => e == error,
            _ => false,
        },
{
    if bytes.len() == 0 {
        return Err(DecodeError::Incomplete);
    }
    let message_type = bytes[0];
    if message_type == PSTA {
        let (state, end) = decode_pstate_frame(bytes)?;
        Ok((ServerMessage::PState(state), end))
    } else if message_type == ACK {
        let (transaction_id, end) = decode_id_frame(bytes)?;
        Ok((ServerMessage::Ack(Ack { transaction_id }), end))
    } else if message_type == STA {
        let (transaction_id, key, value, end) = decode_pair_frame(bytes)?;
        Ok(
            (
                ServerMessage::State(State { transaction_id, key_value: KeyValuePair { key, value } }),
                end,
            ),
        )
    } else if message_type == ERR {
        let (transaction_id, error_code, metadata, end) = decode_error_frame(bytes)?;
        Ok((ServerMessage::ErrorReply(ErrorReply { transaction_id, error_code, metadata }), end))
    } else if message_type == HSHK {
        let (handshake, end) = decode_handshake_frame(bytes)?;
        Ok((ServerMessage::Handshake(handshake), end))
    } else {
        Err(DecodeError::UndefinedType(message_type))
    }
}

/// A number that fits its width is read back from its bytes, wherever they
/// stand.
pub proof fn lemma_number(before: Seq<u8>, x: nat, width: nat, after: Seq<u8>)
    requires
        x < be_limit(width),
    ensures
        number(before + be_bytes(x, width) + after, before.len() as int, width as int) == x,
        (before + be_bytes(x, width) + after).len() == before.len() + width + after.len(),
{
    lemma_be_bytes_len(x, width);
    lemma_be_value_of_bytes(x, width);
    let all = before + be_bytes(x, width) + after;
    assert(all.subrange(before.len() as int, (before.len() + width) as int) =~= be_bytes(x, width));
}

/// A text is read back from its bytes, wherever they stand.
pub proof fn lemma_text(before: Seq<u8>, text: Seq<char>, after: Seq<u8>)
    ensures
        valid_utf8(field(before + utf8(text) + after, before.len() as int, utf8(text).len() as int)),
        decode_utf8(field(before + utf8(text) + after, before.len() as int, utf8(text).len() as int))
            == text,
{
    encode_utf8_valid_utf8(text);
    encode_utf8_decode_utf8(text);
    let all = before + utf8(text) + after;
    assert(all.subrange(before.len() as int, (before.len() + utf8(text).len()) as int) =~= utf8(
        text,
    ));
}

/// The start of a frame is read back: the type and the transaction id.
pub proof fn lemma_head(message_type: u8, transaction_id: u64, after: Seq<u8>)
    ensures
        (head(message_type, transaction_id) + after).len() == 9 + after.len(),
        (head(message_type, transaction_id) + after)[0] == message_type,
        number(head(message_type, transaction_id) + after, 1, 8) == transaction_id,
{
    lemma_be_limits();
    let first = seq![message_type];
    lemma_number(first, transaction_id as nat, 8, after);
    assert(head(message_type, transaction_id) + after =~= first + be_bytes(
        transaction_id as nat,
        8,
    ) + after);
}

/// A frame with a transaction id and one text is read back.
pub proof fn lemma_text_frame(message_type: u8, transaction_id: u64, text: Seq<char>, tail: Seq<u8>)
    requires
        utf8(text).len() <= u16::MAX,
    ensures
        (head(message_type, transaction_id) + length_field(text, 2) + utf8(text) + tail)[0]
            == message_type,
        read_text_frame(head(message_type, transaction_id) + length_field(text, 2) + utf8(text) + tail)
            == Ok::<(u64, Seq<char>, int), DecodeError>(
            (transaction_id, text, (11 + utf8(text).len()) as int),
        ),
        (head(message_type, transaction_id) + length_field(text, 2) + utf8(text)).len() == 11
            + utf8(text).len(),
{
    lemma_be_limits();
    let h = head(message_type, transaction_id);
    let len = utf8(text).len();
    let all = h + length_field(text, 2) + utf8(text) + tail;
    lemma_head(message_type, transaction_id, length_field(text, 2) + utf8(text) + tail);
    assert(all =~= h + (length_field(text, 2) + utf8(text) + tail));
    assert(h.len() == 9) by {
        lemma_head(message_type, transaction_id, Seq::empty());
        assert(h + Seq::<u8>::empty() =~= h);
    }
    lemma_number(h, len, 2, utf8(text) + tail);
    assert(all =~= h + be_bytes(len, 2) + (utf8(text) + tail));
    lemma_be_bytes_len(len, 2);
    lemma_text(h + length_field(text, 2), text, tail);
}

/// A frame with a transaction id, a text and a flag is read back.
pub proof fn lemma_flagged_frame(
    message_type: u8,
    transaction_id: u64,
    text: Seq<char>,
    unique: bool,
    tail: Seq<u8>,
)
    requires
        utf8(text).len() <= u16::MAX,
    ensures
        (head(message_type, transaction_id) + length_field(text, 2) + utf8(text) + flag(unique)
            + tail)[0] == message_type,
        read_flagged_frame(
            head(message_type, transaction_id) + length_field(text, 2) + utf8(text) + flag(unique)
                + tail,
        ) == Ok::<(u64, Seq<char>, bool, int), DecodeError>(
            (transaction_id, text, unique, (12 + utf8(text).len()) as int),
        ),
        (head(message_type, transaction_id) + length_field(text, 2) + utf8(text) + flag(
            unique,
        )).len() == 12 + utf8(text).len(),
{
    let rest = flag(unique) + tail;
    let all = head(message_type, transaction_id) + length_field(text, 2) + utf8(text) + flag(unique)
        + tail;
    lemma_text_frame(message_type, transaction_id, text, rest);
    assert(all =~= head(message_type, transaction_id) + length_field(text, 2) + utf8(text) + rest);
    assert(all[(11 + utf8(text).len()) as int] == flag(unique)[0]);
}

/// A frame with a transaction id, a key and a value is read back.
pub proof fn lemma_pair_frame(
    message_type: u8,
    transaction_id: u64,
    key: Seq<char>,
    value: Seq<char>,
    tail: Seq<u8>,
)
    requires
        utf8(key).len() <= u16::MAX,
        utf8(value).len() <= u32::MAX,
    ensures
        (head(message_type, transaction_id) + length_field(key, 2) + length_field(value, 4) + utf8(
            key,
        ) + utf8(value) + tail)[0] == message_type,
        read_pair_frame(
            head(message_type, transaction_id) + length_field(key, 2) + length_field(value, 4)
                + utf8(key) + utf8(value) + tail,
        ) == Ok::<(u64, Seq<char>, Seq<char>, int), DecodeError>(
            (transaction_id, key, value, (15 + utf8(key).len() + utf8(value).len()) as int),
        ),
        (head(message_type, transaction_id) + length_field(key, 2) + length_field(value, 4) + utf8(
            key,
        ) + utf8(value)).len() == 15 + utf8(key).len() + utf8(value).len(),
{
    lemma_be_limits();
    let h = head(message_type, transaction_id);
    let klen = utf8(key).len();
    let vlen = utf8(value).len();
    let all = h + length_field(key, 2) + length_field(value, 4) + utf8(key) + utf8(value) + tail;
    lemma_head(
        message_type,
        transaction_id,
        length_field(key, 2) + length_field(value, 4) + utf8(key) + utf8(value) + tail,
    );
    assert(all =~= h + (length_field(key, 2) + length_field(value, 4) + utf8(key) + utf8(value)
        + tail));
    assert(h.len() == 9) by {
        lemma_head(message_type, transaction_id, Seq::empty());
        assert(h + Seq::<u8>::empty() =~= h);
    }
    lemma_be_bytes_len(klen, 2);
    lemma_be_bytes_len(vlen, 4);
    lemma_number(h, klen, 2, length_field(value, 4) + utf8(key) + utf8(value) + tail);
    assert(all =~= h + be_bytes(klen, 2) + (length_field(value, 4) + utf8(key) + utf8(value)
        + tail));
    lemma_number(h + length_field(key, 2), vlen, 4, utf8(key) + utf8(value) + tail);
    assert(all =~= (h + length_field(key, 2)) + be_bytes(vlen, 4) + (utf8(key) + utf8(value)
        + tail));
    lemma_text(h + length_field(key, 2) + length_field(value, 4), key, utf8(value) + tail);
    assert(all =~= (h + length_field(key, 2) + length_field(value, 4)) + utf8(key) + (utf8(value)
        + tail));
    lemma_text(h + length_field(key, 2) + length_field(value, 4) + utf8(key), value, tail);
}

/// An error message is read back.
pub proof fn lemma_error_frame(transaction_id: u64, code: u8, metadata: Seq<char>, tail: Seq<u8>)
    requires
        utf8(metadata).len() <= u32::MAX,
    ensures
        (head(ERR, transaction_id) + seq![code] + length_field(metadata, 4) + utf8(metadata)
            + tail)[0] == ERR,
        read_error_frame(
            head(ERR, transaction_id) + seq![code] + length_field(metadata, 4) + utf8(metadata)
                + tail,
        ) == Ok::<(u64, u8, Seq<char>, int), DecodeError>(
            (transaction_id, code, metadata, (14 + utf8(metadata).len()) as int),
        ),
        (head(ERR, transaction_id) + seq![code] + length_field(metadata, 4) + utf8(
            metadata,
        )).len() == 14 + utf8(metadata).len(),
{
    lemma_be_limits();
    let h = head(ERR, transaction_id);
    let len = utf8(metadata).len();
    let all = h + seq![code] + length_field(metadata, 4) + utf8(metadata) + tail;
    lemma_head(ERR, transaction_id, seq![code] + length_field(metadata, 4) + utf8(metadata) + tail);
    assert(all =~= h + (seq![code] + length_field(metadata, 4) + utf8(metadata) + tail));
    assert(h.len() == 9) by {
        lemma_head(ERR, transaction_id, Seq::empty());
        assert(h + Seq::<u8>::empty() =~= h);
    }
    lemma_be_bytes_len(len, 4);
    assert(all[9] == code);
    lemma_number(h + seq![code], len, 4, utf8(metadata) + tail);
    assert(all =~= (h + seq![code]) + be_bytes(len, 4) + (utf8(metadata) + tail));
    lemma_text(h + seq![code] + length_field(metadata, 4), metadata, tail);
}

/// A message of a client can be read.
pub open spec fn from_client(frame: Frame) -> bool {
    frame is Get || frame is PGet || frame is SetValue || frame is Subscribe || frame is PSubscribe
        || frame is Export || frame is Import || frame is Unsubscribe
}

/// Reading what was written gives back what was written: the frame of a
/// message of a client, whatever follows it in the buffer, is read as that
/// message, and its length is that of the frame.
pub proof fn law_client_round_trip(frame: Frame, tail: Seq<u8>)
    requires
        from_client(frame),
        frame.encode_error() is None,
    ensures
        client_frame(frame.encoded() + tail) == Ok::<(Frame, int), DecodeError>(
            (frame, frame.encoded().len() as int),
        ),
{
    match frame {
        Frame::Get { transaction_id, key } => {
            lemma_text_frame(GET, transaction_id, key, tail);
        },
        Frame::PGet { transaction_id, request_pattern } => {
            lemma_text_frame(PGET, transaction_id, request_pattern, tail);
        },
        Frame::Export { transaction_id, path } => {
            lemma_text_frame(EXP, transaction_id, path, tail);
        },
        Frame::Import { transaction_id, path } => {
            lemma_text_frame(IMP, transaction_id, path, tail);
        },
        Frame::SetValue { transaction_id, key, value } => {
            lemma_pair_frame(SET, transaction_id, key, value, tail);
        },
        Frame::Subscribe { transaction_id, key, unique } => {
            lemma_flagged_frame(SUB, transaction_id, key, unique, tail);
        },
        Frame::PSubscribe { transaction_id, request_pattern, unique } => {
            lemma_flagged_frame(PSUB, transaction_id, request_pattern, unique, tail);
        },
        Frame::Unsubscribe { transaction_id } => {
            lemma_head(USUB, transaction_id, tail);
            lemma_head(USUB, transaction_id, Seq::empty());
            assert(head(USUB, transaction_id) + Seq::<u8>::empty() =~= head(USUB, transaction_id));
        },
        _ => {},
    }
}

/// A part of the middle of three pieces in a row is found in the row.
pub proof fn lemma_inner(before: Seq<u8>, middle: Seq<u8>, after: Seq<u8>, from: int, to: int)
    requires
        0 <= from <= to <= middle.len(),
    ensures
        (before + middle + after).subrange(before.len() + from, before.len() + to)
            == middle.subrange(from, to),
{
    assert((before + middle + after).subrange(before.len() + from, before.len() + to)
        =~= middle.subrange(from, to));
}

/// The length of the keys and values of the first `upto` pairs together.
pub open spec fn payload_size(pairs: Seq<KeyValueView>, upto: int) -> int
    decreases upto,
{
    if upto <= 0 {
        0
    } else {
        payload_size(pairs, upto - 1) + utf8(pairs[upto - 1].key).len() + utf8(
            pairs[upto - 1].value,
        ).len()
    }
}

/// Pairs without a length error have keys and values that fit their length
/// fields.
pub proof fn lemma_pairs_fit(pairs: Seq<KeyValueView>, i: int)
    requires
        pair_error(pairs) is None,
        0 <= i < pairs.len(),
    ensures
        utf8(pairs[i].key).len() <= u16::MAX,
        utf8(pairs[i].value).len() <= u32::MAX,
    decreases pairs.len(),
{
    if i < pairs.len() - 1 {
        lemma_pairs_fit(pairs.drop_last(), i);
    }
}

/// The table of lengths holds, for each pair, the length of its key and
/// that of its value.
pub proof fn lemma_pair_lengths(pairs: Seq<KeyValueView>, i: int)
    requires
        0 <= i < pairs.len(),
    ensures
        pair_lengths(pairs).len() == 6 * pairs.len(),
        pair_lengths(pairs).subrange(6 * i, 6 * i + 2) == be_bytes(utf8(pairs[i].key).len(), 2),
        pair_lengths(pairs).subrange(6 * i + 2, 6 * i + 6) == be_bytes(
            utf8(pairs[i].value).len(),
            4,
        ),
    decreases pairs.len(),
{
    let init = pairs.drop_last();
    let last = pairs.last();
    lemma_pair_lengths_len(init);
    lemma_be_bytes_len(utf8(last.key).len(), 2);
    lemma_be_bytes_len(utf8(last.value).len(), 4);
    let table = pair_lengths(pairs);
    if i < pairs.len() - 1 {
        lemma_pair_lengths(init, i);
        assert(table.subrange(6 * i, 6 * i + 2) =~= pair_lengths(init).subrange(6 * i, 6 * i + 2));
        assert(table.subrange(6 * i + 2, 6 * i + 6) =~= pair_lengths(init).subrange(
            6 * i + 2,
            6 * i + 6,
        ));
    } else {
        assert(table.subrange(6 * i, 6 * i + 2) =~= length_field(last.key, 2));
        assert(table.subrange(6 * i + 2, 6 * i + 6) =~= length_field(last.value, 4));
    }
}

/// The table of lengths has six bytes for each pair.
pub proof fn lemma_pair_lengths_len(pairs: Seq<KeyValueView>)
    ensures
        pair_lengths(pairs).len() == 6 * pairs.len(),
    decreases pairs.len(),
{
    if pairs.len() > 0 {
        lemma_pair_lengths_len(pairs.drop_last());
        lemma_be_bytes_len(utf8(pairs.last().key).len(), 2);
        lemma_be_bytes_len(utf8(pairs.last().value).len(), 4);
    }
}

/// The payload holds, for each pair, its key and its value, behind those
/// of the pairs before it.
pub proof fn lemma_pair_payload(pairs: Seq<KeyValueView>, i: int)
    requires
        0 <= i < pairs.len(),
    ensures
        pair_payload(pairs).len() == payload_size(pairs, pairs.len() as int),
        0 <= payload_size(pairs, i),
        payload_size(pairs, i + 1) <= payload_size(pairs, pairs.len() as int),
        pair_payload(pairs).subrange(
            payload_size(pairs, i),
            payload_size(pairs, i) + utf8(pairs[i].key).len(),
        ) == utf8(pairs[i].key),
        pair_payload(pairs).subrange(
            payload_size(pairs, i) + utf8(pairs[i].key).len(),
            payload_size(pairs, i + 1),
        ) == utf8(pairs[i].value),
    decreases pairs.len(),
{
    let init = pairs.drop_last();
    let last = pairs.last();
    let n = pairs.len() as int;
    lemma_payload_size(pairs, n - 1);
    lemma_pair_payload_len(init);
    lemma_pair_payload_len(pairs);
    let payload = pair_payload(pairs);
    if i < n - 1 {
        lemma_pair_payload(init, i);
        lemma_payload_size(pairs, i);
        lemma_payload_size(pairs, i + 1);
        assert(payload.subrange(
            payload_size(pairs, i),
            payload_size(pairs, i) + utf8(pairs[i].key).len(),
        ) =~= pair_payload(init).subrange(
            payload_size(init, i),
            payload_size(init, i) + utf8(init[i].key).len(),
        ));
        assert(payload.subrange(
            payload_size(pairs, i) + utf8(pairs[i].key).len(),
            payload_size(pairs, i + 1),
        ) =~= pair_payload(init).subrange(
            payload_size(init, i) + utf8(init[i].key).len(),
            payload_size(init, i + 1),
        ));
    } else {
        assert(payload.subrange(
            payload_size(pairs, i),
            payload_size(pairs, i) + utf8(pairs[i].key).len(),
        ) =~= utf8(last.key));
        assert(payload.subrange(
            payload_size(pairs, i) + utf8(pairs[i].key).len(),
            payload_size(pairs, i + 1),
        ) =~= utf8(last.value));
    }
}

/// The size of the first pairs does not depend on the pairs that follow.
pub proof fn lemma_payload_size(pairs: Seq<KeyValueView>, upto: int)
    requires
        0 <= upto < pairs.len(),
    ensures
        payload_size(pairs, upto) == payload_size(pairs.drop_last(), upto),
        0 <= payload_size(pairs, upto),
    decreases upto,
{
    if upto > 0 {
        lemma_payload_size(pairs, upto - 1);
        assert(pairs.drop_last()[upto - 1] == pairs[upto - 1]);
    }
}

/// The payload is as long as the keys and values of all pairs together.
pub proof fn lemma_pair_payload_len(pairs: Seq<KeyValueView>)
    ensures
        pair_payload(pairs).len() == payload_size(pairs, pairs.len() as int),
        0 <= payload_size(pairs, pairs.len() as int),
    decreases pairs.len(),
{
    if pairs.len() > 0 {
        lemma_pair_payload_len(pairs.drop_last());
        if pairs.len() > 1 {
            lemma_payload_size(pairs, pairs.len() - 1);
        }
    }
}

/// The sizes up to the pairs grow.
pub proof fn lemma_payload_size_grows(pairs: Seq<KeyValueView>, i: int, j: int)
    requires
        0 <= i <= j <= pairs.len(),
    ensures
        0 <= payload_size(pairs, i) <= payload_size(pairs, j),
    decreases j,
{
    if i < j {
        lemma_payload_size_grows(pairs, i, j - 1);
    } else if i > 0 {
        lemma_payload_size_grows(pairs, i - 1, i - 1);
    }
}

/// The lengths in the table of a buffer are those of the pairs that the
/// table was written for.
pub proof fn lemma_table(bytes: Seq<u8>, fixed: Seq<u8>, pairs: Seq<KeyValueView>, rest: Seq<u8>)
    requires
        bytes == fixed + pair_lengths(pairs) + rest,
        fixed.len() == 15,
        pair_error(pairs) is None,
    ensures
        forall|i: int|
            0 <= i < pairs.len() ==> key_length(bytes, i) == utf8(pairs[i].key).len()
                && value_length(bytes, i) == utf8(pairs[i].value).len(),
{
    lemma_be_limits();
    let table = pair_lengths(pairs);
    assert forall|i: int| 0 <= i < pairs.len() implies key_length(bytes, i) == utf8(
        pairs[i].key,
    ).len() && value_length(bytes, i) == utf8(pairs[i].value).len() by {
        lemma_pair_lengths(pairs, i);
        lemma_pairs_fit(pairs, i);
        lemma_inner(fixed, table, rest, 6 * i, 6 * i + 2);
        lemma_inner(fixed, table, rest, 6 * i + 2, 6 * i + 6);
        lemma_be_value_of_bytes(utf8(pairs[i].key).len(), 2);
        lemma_be_value_of_bytes(utf8(pairs[i].value).len(), 4);
    }
}

/// The keys and values in the payload of a buffer are those of the pairs
/// that the payload was written for.
pub proof fn lemma_payload(
    bytes: Seq<u8>,
    base: Seq<u8>,
    pairs: Seq<KeyValueView>,
    tail: Seq<u8>,
    i: int,
)
    requires
        bytes == base + pair_payload(pairs) + tail,
        base.len() == 15 + 6 * number(bytes, 11, 4) + number(bytes, 9, 2),
        0 <= i < pairs.len(),
        forall|j: int|
            0 <= j < pairs.len() ==> key_length(bytes, j) == utf8(pairs[j].key).len()
                && value_length(bytes, j) == utf8(pairs[j].value).len(),
    ensures
        pair_is_text(bytes, i),
        pair_at(bytes, i) == pairs[i],
{
    let payload = pair_payload(pairs);
    lemma_payload_lengths(bytes, pairs, i);
    lemma_payload_lengths(bytes, pairs, i + 1);
    lemma_pair_payload(pairs, i);
    let from = payload_size(pairs, i);
    let mid = from + utf8(pairs[i].key).len();
    let to = payload_size(pairs, i + 1);
    lemma_inner(base, payload, tail, from, mid);
    lemma_inner(base, payload, tail, mid, to);
    encode_utf8_valid_utf8(pairs[i].key);
    encode_utf8_decode_utf8(pairs[i].key);
    encode_utf8_valid_utf8(pairs[i].value);
    encode_utf8_decode_utf8(pairs[i].value);
    assert(key_start(bytes, i) == base.len() + from);
}

/// The fixed part of a pattern state is read back.
pub proof fn lemma_pstate_head(
    bytes: Seq<u8>,
    transaction_id: u64,
    request_pattern: Seq<char>,
    n: nat,
    rest: Seq<u8>,
)
    requires
        bytes == head(PSTA, transaction_id) + length_field(request_pattern, 2) + be_bytes(n, 4)
            + rest,
        utf8(request_pattern).len() <= u16::MAX,
        n <= u32::MAX,
    ensures
        bytes[0] == PSTA,
        number(bytes, 1, 8) == transaction_id,
        number(bytes, 9, 2) == utf8(request_pattern).len(),
        number(bytes, 11, 4) == n,
        (head(PSTA, transaction_id) + length_field(request_pattern, 2) + be_bytes(n, 4)).len()
            == 15,
{
    lemma_be_limits();
    let h = head(PSTA, transaction_id);
    let plen = utf8(request_pattern).len();
    assert(h.len() == 9) by {
        lemma_head(PSTA, transaction_id, Seq::empty());
        assert(h + Seq::<u8>::empty() =~= h);
    }
    lemma_be_bytes_len(plen, 2);
    lemma_be_bytes_len(n, 4);
    lemma_head(PSTA, transaction_id, length_field(request_pattern, 2) + be_bytes(n, 4) + rest);
    assert(bytes =~= h + (length_field(request_pattern, 2) + be_bytes(n, 4) + rest));
    lemma_number(h, plen, 2, be_bytes(n, 4) + rest);
    assert(bytes =~= h + be_bytes(plen, 2) + (be_bytes(n, 4) + rest));
    lemma_number(h + length_field(request_pattern, 2), n, 4, rest);
}

/// The pieces of the frame of a pattern state, in a row: the fixed part,
/// the table of lengths, the pattern and the payload.
pub proof fn lemma_pstate_layout(
    transaction_id: u64,
    request_pattern: Seq<char>,
    pairs: Seq<KeyValueView>,
    tail: Seq<u8>,
)
    ensures
        ({
            let frame = Frame::PState { transaction_id, request_pattern, key_value_pairs: pairs };
            let fixed = head(PSTA, transaction_id) + length_field(request_pattern, 2) + be_bytes(
                pairs.len(),
                4,
            );
            let table = pair_lengths(pairs);
            let pattern = utf8(request_pattern);
            let payload = pair_payload(pairs);
            let all = frame.encoded() + tail;
            &&& all == fixed + (table + pattern + payload + tail)
            &&& all == fixed + table + (pattern + payload + tail)
            &&& all == (fixed + table) + pattern + (payload + tail)
            &&& all == (fixed + table + pattern) + payload + tail
            &&& frame.encoded() == (fixed + table + pattern) + payload
        }),
{
    let frame = Frame::PState { transaction_id, request_pattern, key_value_pairs: pairs };
    let fixed = head(PSTA, transaction_id) + length_field(request_pattern, 2) + be_bytes(
        pairs.len(),
        4,
    );
    let table = pair_lengths(pairs);
    let pattern = utf8(request_pattern);
    let payload = pair_payload(pairs);
    let all = frame.encoded() + tail;
    assert(all =~= fixed + (table + pattern + payload + tail));
    assert(all =~= fixed + table + (pattern + payload + tail));
    assert(all =~= (fixed + table) + pattern + (payload + tail));
    assert(all =~= (fixed + table + pattern) + payload + tail);
    assert(frame.encoded() =~= (fixed + table + pattern) + payload);
}

/// What is read of a buffer that holds a pattern state, given what stands
/// where in the buffer.
pub proof fn lemma_pstate_read(
    bytes: Seq<u8>,
    transaction_id: u64,
    request_pattern: Seq<char>,
    pairs: Seq<KeyValueView>,
    end: int,
)
    requires
        bytes.len() >= 15,
        number(bytes, 1, 8) == transaction_id,
        number(bytes, 9, 2) == utf8(request_pattern).len(),
        number(bytes, 11, 4) == pairs.len(),
        end == key_start(bytes, pairs.len() as int),
        bytes.len() >= end,
        valid_utf8(field(bytes, (15 + 6 * pairs.len()) as int, utf8(request_pattern).len() as int)),
        decode_utf8(field(bytes, (15 + 6 * pairs.len()) as int, utf8(request_pattern).len() as int))
            == request_pattern,
        forall|i: int| 0 <= i < pairs.len() ==> pair_is_text(bytes, i),
        pairs_read(bytes, pairs.len() as int) == pairs,
    ensures
        read_pstate_frame(bytes) == Ok::<(Frame, int), DecodeError>(
            (Frame::PState { transaction_id, request_pattern, key_value_pairs: pairs }, end),
        ),
{
    lemma_payload_length_grows(bytes, 0, pairs.len() as int);
}

/// A buffer that holds the pieces of a pattern state in a row is read as
/// that pattern state.
pub proof fn lemma_pstate_pieces(
    bytes: Seq<u8>,
    transaction_id: u64,
    request_pattern: Seq<char>,
    pairs: Seq<KeyValueView>,
    tail: Seq<u8>,
)
    requires
        utf8(request_pattern).len() <= u16::MAX,
        pairs.len() <= u32::MAX,
        pair_error(pairs) is None,
        ({
            let fixed = head(PSTA, transaction_id) + length_field(request_pattern, 2) + be_bytes(
                pairs.len(),
                4,
            );
            let table = pair_lengths(pairs);
            let pattern = utf8(request_pattern);
            let payload = pair_payload(pairs);
            &&& bytes == fixed + (table + pattern + payload + tail)
            &&& bytes == fixed + table + (pattern + payload + tail)
            &&& bytes == (fixed + table) + pattern + (payload + tail)
            &&& bytes == (fixed + table + pattern) + payload + tail
        }),
    ensures
        bytes[0] == PSTA,
        read_pstate_frame(bytes) == Ok::<(Frame, int), DecodeError>(
            (
                Frame::PState { transaction_id, request_pattern, key_value_pairs: pairs },
                bytes.len() - tail.len(),
            ),
        ),
{
    let n = pairs.len() as int;
    let plen = utf8(request_pattern).len() as int;
    let fixed = head(PSTA, transaction_id) + length_field(request_pattern, 2) + be_bytes(
        pairs.len(),
        4,
    );
    let table = pair_lengths(pairs);
    let pattern = utf8(request_pattern);
    let payload = pair_payload(pairs);
    let base = fixed + table + pattern;
    assert(bytes[0] == PSTA && number(bytes, 1, 8) == transaction_id && number(bytes, 9, 2) == plen
        && number(bytes, 11, 4) == n && fixed.len() == 15) by {
        lemma_pstate_head(
            bytes,
            transaction_id,
            request_pattern,
            pairs.len(),
            table + pattern + payload + tail,
        );
    }
    assert(table.len() == 6 * n) by {
        lemma_pair_lengths_len(pairs);
    }
    assert(forall|i: int|
        0 <= i < pairs.len() ==> key_length(bytes, i) == utf8(pairs[i].key).len() && value_length(
            bytes,
            i,
        ) == utf8(pairs[i].value).len()) by {
        lemma_table(bytes, fixed, pairs, pattern + payload + tail);
    }
    assert(payload_length(bytes, n) == payload.len()) by {
        lemma_payload_lengths(bytes, pairs, n);
        lemma_pair_payload_len(pairs);
    }
    assert(valid_utf8(field(bytes, 15 + 6 * n, plen)) && decode_utf8(
        field(bytes, 15 + 6 * n, plen),
    ) == request_pattern) by {
        lemma_text(fixed + table, request_pattern, payload + tail);
    }
    assert forall|i: int| 0 <= i < n implies pair_is_text(bytes, i) by {
        lemma_payload(bytes, base, pairs, tail, i);
    }
    assert forall|i: int| 0 <= i < n implies #[trigger] pair_at(bytes, i) == pairs[i] by {
        lemma_payload(bytes, base, pairs, tail, i);
    }
    assert(pairs_read(bytes, n) == pairs) by {
        lemma_pairs_read(bytes, pairs, n);
        assert(pairs.subrange(0, n) =~= pairs);
    }
    assert(bytes.len() == 15 + 6 * n + plen + payload.len() + tail.len());
    lemma_pstate_read(bytes, transaction_id, request_pattern, pairs, bytes.len() - tail.len());
}

/// A pattern state is read back.
pub proof fn lemma_pstate_frame(
    transaction_id: u64,
    request_pattern: Seq<char>,
    pairs: Seq<KeyValueView>,
    tail: Seq<u8>,
)
    requires
        utf8(request_pattern).len() <= u16::MAX,
        pairs.len() <= u32::MAX,
        pair_error(pairs) is None,
    ensures
        read_pstate_frame(
            (Frame::PState { transaction_id, request_pattern, key_value_pairs: pairs }).encoded()
                + tail,
        ) == Ok::<(Frame, int), DecodeError>(
            (
                Frame::PState { transaction_id, request_pattern, key_value_pairs: pairs },
                (Frame::PState { transaction_id, request_pattern, key_value_pairs: pairs }).encoded().len() as int,
            ),
        ),
        ((Frame::PState { transaction_id, request_pattern, key_value_pairs: pairs }).encoded()
            + tail)[0] == PSTA,
{
    let frame = Frame::PState { transaction_id, request_pattern, key_value_pairs: pairs };
    lemma_pstate_layout(transaction_id, request_pattern, pairs, tail);
    lemma_pstate_pieces(frame.encoded() + tail, transaction_id, request_pattern, pairs, tail);
}

/// Where the table of lengths of a buffer agrees with the pairs, so do the
/// sums of the lengths.
pub proof fn lemma_payload_lengths(bytes: Seq<u8>, pairs: Seq<KeyValueView>, upto: int)
    requires
        0 <= upto <= pairs.len(),
        forall|i: int|
            0 <= i < pairs.len() ==> key_length(bytes, i) == utf8(pairs[i].key).len()
                && value_length(bytes, i) == utf8(pairs[i].value).len(),
    ensures
        payload_length(bytes, upto) == payload_size(pairs, upto),
    decreases upto,
{
    if upto > 0 {
        lemma_payload_lengths(bytes, pairs, upto - 1);
    }
}

/// Where each pair of a buffer is read as the pair of a list, the pairs of
/// the buffer are read as the list.
pub proof fn lemma_pairs_read(bytes: Seq<u8>, pairs: Seq<KeyValueView>, upto: int)
    requires
        0 <= upto <= pairs.len(),
        forall|i: int| 0 <= i < pairs.len() ==> #[trigger] pair_at(bytes, i) == pairs[i],
    ensures
        pairs_read(bytes, upto) == pairs.subrange(0, upto),
    decreases upto,
{
    if upto > 0 {
        lemma_pairs_read(bytes, pairs, upto - 1);
        assert(pairs_read(bytes, upto) =~= pairs.subrange(0, upto));
    } else {
        assert(pairs_read(bytes, upto) =~= pairs.subrange(0, upto));
    }
}

/// The bytes of the versions of a handshake hold, for each version, its
/// two numbers.
pub proof fn lemma_version_bytes(versions: Seq<ProtocolVersion>, i: int)
    requires
        0 <= i < versions.len(),
    ensures
        version_bytes(versions).len() == 4 * versions.len(),
        version_bytes(versions).subrange(4 * i, 4 * i + 2) == be_bytes(versions[i].major as nat, 2),
        version_bytes(versions).subrange(4 * i + 2, 4 * i + 4) == be_bytes(
            versions[i].minor as nat,
            2,
        ),
    decreases versions.len(),
{
    let init = versions.drop_last();
    let last = versions.last();
    lemma_version_bytes_len(init);
    lemma_be_bytes_len(last.major as nat, 2);
    lemma_be_bytes_len(last.minor as nat, 2);
    let all = version_bytes(versions);
    if i < versions.len() - 1 {
        lemma_version_bytes(init, i);
        assert(all.subrange(4 * i, 4 * i + 2) =~= version_bytes(init).subrange(4 * i, 4 * i + 2));
        assert(all.subrange(4 * i + 2, 4 * i + 4) =~= version_bytes(init).subrange(
            4 * i + 2,
            4 * i + 4,
        ));
    } else {
        assert(all.subrange(4 * i, 4 * i + 2) =~= be_bytes(last.major as nat, 2));
        assert(all.subrange(4 * i + 2, 4 * i + 4) =~= be_bytes(last.minor as nat, 2));
    }
}

/// The bytes of the versions of a handshake are four for each version.
pub proof fn lemma_version_bytes_len(versions: Seq<ProtocolVersion>)
    ensures
        version_bytes(versions).len() == 4 * versions.len(),
    decreases versions.len(),
{
    if versions.len() > 0 {
        lemma_version_bytes_len(versions.drop_last());
        lemma_be_bytes_len(versions.last().major as nat, 2);
        lemma_be_bytes_len(versions.last().minor as nat, 2);
    }
}

/// Where each version of a buffer is read as the version of a list, the
/// versions of the buffer are read as the list.
pub proof fn lemma_versions_read(bytes: Seq<u8>, versions: Seq<ProtocolVersion>, upto: int)
    requires
        0 <= upto <= versions.len(),
        forall|i: int|
            0 <= i < versions.len() ==> #[trigger] number(bytes, 2 + 4 * i, 2) == versions[i].major
                && number(bytes, 4 + 4 * i, 2) == versions[i].minor,
    ensures
        versions_read(bytes, upto) == versions.subrange(0, upto),
    decreases upto,
{
    if upto > 0 {
        lemma_versions_read(bytes, versions, upto - 1);
        assert(number(bytes, 2 + 4 * (upto - 1), 2) == versions[upto - 1].major);
        assert(versions_read(bytes, upto) =~= versions.subrange(0, upto));
    } else {
        assert(versions_read(bytes, upto) =~= versions.subrange(0, upto));
    }
}

/// A character that is written as one byte is read back where its code
/// point is below 256.
pub open spec fn one_byte(c: char) -> bool {
    (c as u32) < 256
}

/// A handshake is read back.
pub proof fn lemma_handshake_frame(
    versions: Seq<ProtocolVersion>,
    separator: char,
    wildcard: char,
    multi_wildcard: char,
    tail: Seq<u8>,
)
    requires
        versions.len() <= u8::MAX,
        one_byte(separator),
        one_byte(wildcard),
        one_byte(multi_wildcard),
    ensures
        read_handshake_frame(
            (Frame::Handshake {
                supported_protocol_versions: versions,
                separator,
                wildcard,
                multi_wildcard,
            }).encoded() + tail,
        ) == Ok::<(Frame, int), DecodeError>(
            (
                Frame::Handshake {
                    supported_protocol_versions: versions,
                    separator,
                    wildcard,
                    multi_wildcard,
                },
                (Frame::Handshake {
                    supported_protocol_versions: versions,
                    separator,
                    wildcard,
                    multi_wildcard,
                }).encoded().len() as int,
            ),
        ),
        ((Frame::Handshake {
            supported_protocol_versions: versions,
            separator,
            wildcard,
            multi_wildcard,
        }).encoded() + tail)[0] == HSHK,
{
    lemma_be_limits();
    let frame = Frame::Handshake {
        supported_protocol_versions: versions,
        separator,
        wildcard,
        multi_wildcard,
    };
    let n = versions.len() as int;
    let start = seq![HSHK] + be_bytes(versions.len(), 1);
    let list = version_bytes(versions);
    let chars = seq![char_byte(separator), char_byte(wildcard), char_byte(multi_wildcard)];
    let all = frame.encoded() + tail;
    lemma_be_bytes_len(versions.len(), 1);
    lemma_version_bytes_len(versions);
    assert(all =~= start + list + (chars + tail));
    assert(frame.encoded().len() == 5 + 4 * n);
    assert(all[1] == n) by {
        reveal_with_fuel(be_bytes, 2);
        assert(be_bytes(versions.len(), 1)[0] == (versions.len() % 256) as u8);
    }
    assert forall|i: int| 0 <= i < n implies #[trigger] number(all, 2 + 4 * i, 2)
        == versions[i].major && number(all, 4 + 4 * i, 2) == versions[i].minor by {
        lemma_version_bytes(versions, i);
        lemma_inner(start, list, chars + tail, 4 * i, 4 * i + 2);
        lemma_inner(start, list, chars + tail, 4 * i + 2, 4 * i + 4);
        lemma_be_value_of_bytes(versions[i].major as nat, 2);
        lemma_be_value_of_bytes(versions[i].minor as nat, 2);
    }
    lemma_versions_read(all, versions, n);
    assert(versions.subrange(0, n) =~= versions);
    assert(all[2 + 4 * n] == char_byte(separator));
    assert(all[3 + 4 * n] == char_byte(wildcard));
    assert(all[4 + 4 * n] == char_byte(multi_wildcard));
    assert(char_byte(separator) as char == separator);
    assert(char_byte(wildcard) as char == wildcard);
    assert(char_byte(multi_wildcard) as char == multi_wildcard);
}

/// A message of the server can be read.
pub open spec fn from_server(frame: Frame) -> bool {
    frame is PState || frame is Ack || frame is State || frame is ErrorReply || frame is Handshake
}

/// The characters of a handshake are written as one byte each, so they are
/// read back where their code points are below 256.
pub open spec fn readable(frame: Frame) -> bool {
    match frame {
        Frame::Handshake { separator, wildcard, multi_wildcard, .. } => one_byte(separator)
            && one_byte(wildcard) && one_byte(multi_wildcard),
        _ => true,
    }
}

/// Reading what was written gives back what was written: the frame of a
/// message of the server, whatever follows it in the buffer, is read as
/// that message, and its length is that of the frame.
pub proof fn law_server_round_trip(frame: Frame, tail: Seq<u8>)
    requires
        from_server(frame),
        readable(frame),
        frame.encode_error() is None,
    ensures
        server_frame(frame.encoded() + tail) == Ok::<(Frame, int), DecodeError>(
            (frame, frame.encoded().len() as int),
        ),
{
    match frame {
        Frame::PState { transaction_id, request_pattern, key_value_pairs } => {
            lemma_pstate_frame(transaction_id, request_pattern, key_value_pairs, tail);
        },
        Frame::Ack { transaction_id } => {
            lemma_head(ACK, transaction_id, tail);
            lemma_head(ACK, transaction_id, Seq::empty());
            assert(head(ACK, transaction_id) + Seq::<u8>::empty() =~= head(ACK, transaction_id));
        },
        Frame::State { transaction_id, key_value } => {
            lemma_pair_frame(STA, transaction_id, key_value.key, key_value.value, tail);
        },
        Frame::ErrorReply { transaction_id, error_code, metadata } => {
            lemma_error_frame(transaction_id, error_code, metadata, tail);
        },
        Frame::Handshake { supported_protocol_versions, separator, wildcard, multi_wildcard } => {
            lemma_handshake_frame(
                supported_protocol_versions,
                separator,
                wildcard,
                multi_wildcard,
                tail,
            );
        },
        _ => {},
    }
}

} // verus!
