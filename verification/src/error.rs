//! Error types shared by the codecs and the store.

use crate::codec::ErrorReply;
use crate::text::{concat2, concat3, concat5, decimal, decimal_string};
use vstd::prelude::*;

verus! {

/// Why a message could not be put on the wire: a field does not fit the
/// width of its length prefix. Each variant carries the offending length.
#[derive(Debug, Clone, Copy, PartialEq, Eq, Structural)]
pub enum EncodeError {
    RequestPatternTooLong(usize),
    KeyTooLong(usize),
    ValueTooLong(usize),
    MetaDataTooLong(usize),
    PathTooLong(usize),
    TooManyKeyValuePairs(usize),
    TooManyProtocolVersions(usize),
}

pub type EncodeResult<T> = Result<T, EncodeError>;

/// What a request may do to a key.
#[derive(Debug, Clone, Copy, PartialEq, Eq, Hash, Structural)]
pub enum Privilege {
    Read,
    Write,
    Delete,
}

/// Why a request was not authorized.
#[derive(Debug, Clone, PartialEq, Eq)]
pub enum AuthorizationError {
    InsufficientPrivileges(Privilege, String),
    TokenDecodeError(String),
    MissingToken,
    MissingSecret,
}

/// Why a request failed.
///
/// Where the cause is an error of the operating system or of a serializer,
/// the variant carries its text.
#[derive(Debug, Clone, PartialEq, Eq)]
pub enum WorterbuchError {
    IllegalWildcard(String),
    IllegalMultiWildcard(String),
    MultiWildcardAtIllegalPosition(String),
    NoSuchValue(String),
    NotSubscribed,
    IoError(String, String),
    SerDeError(String, String),
    InvalidServerResponse(String),
    Other(String, String),
    ServerResponse(ErrorReply),
    ProtocolNegotiationFailed,
    ReadOnlyKey(String),
    AuthenticationRequired(Privilege),
    AlreadyAuthenticated,
    AuthenticationFailed,
    Unauthorized(AuthorizationError),
}

pub type WorterbuchResult<T> = Result<T, WorterbuchError>;

pub type AuthorizationResult<T> = Result<T, AuthorizationError>;

/// An authorization error as a mathematical value.
pub enum AuthorizationErrorView {
    InsufficientPrivileges(Privilege, Seq<char>),
    TokenDecodeError(Seq<char>),
    MissingToken,
    MissingSecret,
}

/// An error as a mathematical value.
pub enum ErrorView {
    IllegalWildcard(Seq<char>),
    IllegalMultiWildcard(Seq<char>),
    MultiWildcardAtIllegalPosition(Seq<char>),
    NoSuchValue(Seq<char>),
    NotSubscribed,
    IoError(Seq<char>, Seq<char>),
    SerDeError(Seq<char>, Seq<char>),
    InvalidServerResponse(Seq<char>),
    Other(Seq<char>, Seq<char>),
    ServerResponse(u64, u8, Seq<char>),
    ProtocolNegotiationFailed,
    ReadOnlyKey(Seq<char>),
    AuthenticationRequired(Privilege),
    AlreadyAuthenticated,
    AuthenticationFailed,
    Unauthorized(AuthorizationErrorView),
}

impl View for AuthorizationError {
    type V = AuthorizationErrorView;

    open spec fn view(&self) -> AuthorizationErrorView {
        match self {
            AuthorizationError::InsufficientPrivileges(privilege, pattern) => {
                AuthorizationErrorView::InsufficientPrivileges(*privilege, pattern@)
            },
            AuthorizationError::TokenDecodeError(msg) => AuthorizationErrorView::TokenDecodeError(
                msg@,
            ),
            AuthorizationError::MissingToken => AuthorizationErrorView::MissingToken,
            AuthorizationError::MissingSecret => AuthorizationErrorView::MissingSecret,
        }
    }
}

impl View for WorterbuchError {
    type V = ErrorView;

    open spec fn view(&self) -> ErrorView {
        match self {
            WorterbuchError::IllegalWildcard(p) => ErrorView::IllegalWildcard(p@),
            WorterbuchError::IllegalMultiWildcard(p) => ErrorView::IllegalMultiWildcard(p@),
            WorterbuchError::MultiWildcardAtIllegalPosition(p) => {
                ErrorView::MultiWildcardAtIllegalPosition(p@)
            },
            WorterbuchError::NoSuchValue(k) => ErrorView::NoSuchValue(k@),
            WorterbuchError::NotSubscribed => ErrorView::NotSubscribed,
            WorterbuchError::IoError(cause, meta) => ErrorView::IoError(cause@, meta@),
            WorterbuchError::SerDeError(cause, meta) => ErrorView::SerDeError(cause@, meta@),
            WorterbuchError::InvalidServerResponse(meta) => ErrorView::InvalidServerResponse(meta@),
            WorterbuchError::Other(cause, meta) => ErrorView::Other(cause@, meta@),
            WorterbuchError::ServerResponse(e) => ErrorView::ServerResponse(
                e.transaction_id,
                e.error_code,
                e.metadata@,
            ),
            WorterbuchError::ProtocolNegotiationFailed => ErrorView::ProtocolNegotiationFailed,
            WorterbuchError::ReadOnlyKey(k) => ErrorView::ReadOnlyKey(k@),
            WorterbuchError::AuthenticationRequired(p) => ErrorView::AuthenticationRequired(*p),
            WorterbuchError::AlreadyAuthenticated => ErrorView::AlreadyAuthenticated,
            WorterbuchError::AuthenticationFailed => ErrorView::AuthenticationFailed,
            WorterbuchError::Unauthorized(e) => ErrorView::Unauthorized(e@),
        }
    }
}

/// The kind of an error, as it is named on the wire.
#[derive(Debug, Clone, Copy, PartialEq, Eq, Hash, Structural)]
pub enum ErrorCode {
    IllegalWildcard,
    IllegalMultiWildcard,
    MultiWildcardAtIllegalPosition,
    IoError,
    SerdeError,
    NoSuchValue,
    NotSubscribed,
    ProtocolNegotiationFailed,
    InvalidServerResponse,
    ReadOnlyKey,
    AuthenticationRequired,
    AlreadyAuthenticated,
    AuthenticationFailed,
    Unauthorized,
    Other,
}

/// The kind of an error.
pub open spec fn code_of(e: ErrorView) -> ErrorCode {
    match e {
        ErrorView::IllegalWildcard(_) => ErrorCode::IllegalWildcard,
        ErrorView::IllegalMultiWildcard(_) => ErrorCode::IllegalMultiWildcard,
        ErrorView::MultiWildcardAtIllegalPosition(_) => ErrorCode::MultiWildcardAtIllegalPosition,
        ErrorView::NoSuchValue(_) => ErrorCode::NoSuchValue,
        ErrorView::NotSubscribed => ErrorCode::NotSubscribed,
        ErrorView::IoError(_, _) => ErrorCode::IoError,
        ErrorView::SerDeError(_, _) => ErrorCode::SerdeError,
        ErrorView::ProtocolNegotiationFailed => ErrorCode::ProtocolNegotiationFailed,
        ErrorView::InvalidServerResponse(_) => ErrorCode::InvalidServerResponse,
        ErrorView::ReadOnlyKey(_) => ErrorCode::ReadOnlyKey,
        ErrorView::AuthenticationRequired(_) => ErrorCode::AuthenticationRequired,
        ErrorView::AlreadyAuthenticated => ErrorCode::AlreadyAuthenticated,
        ErrorView::AuthenticationFailed => ErrorCode::AuthenticationFailed,
        ErrorView::Unauthorized(_) => ErrorCode::Unauthorized,
        ErrorView::Other(_, _) => ErrorCode::Other,
        ErrorView::ServerResponse(_, _, _) => ErrorCode::Other,
    }
}

impl ErrorCode {
    /// The kind of `e`.
    pub fn of(e: &WorterbuchError) -> (code: ErrorCode)
        ensures
            code == code_of(e@),
    {
        match e {
            WorterbuchError::IllegalWildcard(_) => ErrorCode::IllegalWildcard,
            WorterbuchError::IllegalMultiWildcard(_) => ErrorCode::IllegalMultiWildcard,
            WorterbuchError::MultiWildcardAtIllegalPosition(_) => {
                ErrorCode::MultiWildcardAtIllegalPosition
            },
            WorterbuchError::NoSuchValue(_) => ErrorCode::NoSuchValue,
            WorterbuchError::NotSubscribed => ErrorCode::NotSubscribed,
            WorterbuchError::IoError(_, _) => ErrorCode::IoError,
            WorterbuchError::SerDeError(_, _) => ErrorCode::SerdeError,
            WorterbuchError::ProtocolNegotiationFailed => ErrorCode::ProtocolNegotiationFailed,
            WorterbuchError::InvalidServerResponse(_) => ErrorCode::InvalidServerResponse,
            WorterbuchError::ReadOnlyKey(_) => ErrorCode::ReadOnlyKey,
            WorterbuchError::AuthenticationRequired(_) => ErrorCode::AuthenticationRequired,
            WorterbuchError::AlreadyAuthenticated => ErrorCode::AlreadyAuthenticated,
            WorterbuchError::AuthenticationFailed => ErrorCode::AuthenticationFailed,
            WorterbuchError::Unauthorized(_) => ErrorCode::Unauthorized,
            WorterbuchError::Other(_, _) | WorterbuchError::ServerResponse(_) => ErrorCode::Other,
        }
    }

    /// The number of the kind in the binary framing, for the kinds that
    /// have one.
    pub fn number(&self) -> (n: Option<u8>)
        ensures
            n == match self {
                ErrorCode::IllegalWildcard => Some(0x00u8),
                ErrorCode::IllegalMultiWildcard => Some(0x01u8),
                ErrorCode::MultiWildcardAtIllegalPosition => Some(0x02u8),
                ErrorCode::IoError => Some(0x03u8),
                ErrorCode::SerdeError => Some(0x04u8),
                ErrorCode::NoSuchValue => Some(0x05u8),
                ErrorCode::NotSubscribed => Some(0x06u8),
                ErrorCode::ProtocolNegotiationFailed => Some(0x07u8),
                ErrorCode::InvalidServerResponse => Some(0x08u8),
                ErrorCode::Other => Some(0xFFu8),
                _ => None,
            },
    {
        match self {
            ErrorCode::IllegalWildcard => Some(0x00),
            ErrorCode::IllegalMultiWildcard => Some(0x01),
            ErrorCode::MultiWildcardAtIllegalPosition => Some(0x02),
            ErrorCode::IoError => Some(0x03),
            ErrorCode::SerdeError => Some(0x04),
            ErrorCode::NoSuchValue => Some(0x05),
            ErrorCode::NotSubscribed => Some(0x06),
            ErrorCode::ProtocolNegotiationFailed => Some(0x07),
            ErrorCode::InvalidServerResponse => Some(0x08),
            ErrorCode::Other => Some(0xFF),
            _ => None,
        }
    }
}

impl From<&WorterbuchError> for ErrorCode {
    fn from(e: &WorterbuchError) -> (code: Self) {
        ErrorCode::of(e)
    }
}

impl vstd::std_specs::convert::FromSpecImpl<&WorterbuchError> for ErrorCode {
    open spec fn obeys_from_spec() -> bool {
        true
    }

    open spec fn from_spec(e: &WorterbuchError) -> Self {
        code_of(e@)
    }
}

/// The word for a privilege.
pub open spec fn privilege_text(privilege: Privilege) -> Seq<char> {
    match privilege {
        Privilege::Read => "read"@,
        Privilege::Write => "write"@,
        Privilege::Delete => "delete"@,
    }
}

/// What an authorization error says.
pub open spec fn authorization_text(e: AuthorizationErrorView) -> Seq<char> {
    match e {
        AuthorizationErrorView::InsufficientPrivileges(privilege, pattern) => {
            "Client does not have "@ + privilege_text(privilege) + " access to '"@ + pattern + "'"@
        },
        AuthorizationErrorView::TokenDecodeError(msg) => msg,
        AuthorizationErrorView::MissingToken => "No JWT was included in the request"@,
        AuthorizationErrorView::MissingSecret => "No JWT was configured"@,
    }
}

/// What an error says.
pub open spec fn error_text(e: ErrorView) -> Seq<char> {
    match e {
        ErrorView::IllegalWildcard(rp) => "Key contains illegal wildcard: "@ + rp,
        ErrorView::IllegalMultiWildcard(rp) => "Key contains illegal multi-wildcard: "@ + rp,
        ErrorView::MultiWildcardAtIllegalPosition(rp) => {
            "Key contains multi-wildcard at illegal position: "@ + rp
        },
        ErrorView::NoSuchValue(key) => "no value for key '"@ + key + "'"@,
        ErrorView::NotSubscribed => "no such subscription"@,
        ErrorView::IoError(cause, meta) => meta + ": "@ + cause,
        ErrorView::SerDeError(cause, meta) => meta + ": "@ + cause,
        ErrorView::Other(cause, meta) => meta + ": "@ + cause,
        ErrorView::ServerResponse(_, code, metadata) => "error "@ + decimal(code as nat) + ": "@
            + metadata,
        ErrorView::ProtocolNegotiationFailed => {
            "The server does not implement any of the protocol versions supported by this client"@
        },
        ErrorView::InvalidServerResponse(meta) => {
            "The server sent a response that is not valid for the issued request: "@ + meta
        },
        ErrorView::ReadOnlyKey(key) => "Tried to modify a read only key: "@ + key,
        ErrorView::AuthenticationRequired(op) => "Operation "@ + privilege_text(op)
            + " requires authentication"@,
        ErrorView::AlreadyAuthenticated => "Handshake already done"@,
        ErrorView::AuthenticationFailed => "Client failed to authenticate"@,
        ErrorView::Unauthorized(e) => authorization_text(e),
    }
}

impl Privilege {
    /// The word for the privilege.
    pub fn name(&self) -> (name: &'static str)
        ensures
            name@ == privilege_text(*self),
    {
        match self {
            Privilege::Read => "read",
            Privilege::Write => "write",
            Privilege::Delete => "delete",
        }
    }
}

impl AuthorizationError {
    /// What the error says.
    pub fn message(&self) -> (text: String)
        ensures
            text@ == authorization_text(self@),
    {
        match self {
            AuthorizationError::InsufficientPrivileges(privilege, pattern) => concat5(
                "Client does not have ",
                privilege.name(),
                " access to '",
                pattern.as_str(),
                "'",
            ),
            AuthorizationError::TokenDecodeError(msg) => msg.clone(),
            AuthorizationError::MissingToken => "No JWT was included in the request".to_owned(),
            AuthorizationError::MissingSecret => "No JWT was configured".to_owned(),
        }
    }
}

impl WorterbuchError {
    /// What the error says.
    pub fn message(&self) -> (text: String)
        ensures
            text@ == error_text(self@),
    {
        match self {
            WorterbuchError::IllegalWildcard(rp) => concat2(
                "Key contains illegal wildcard: ",
                rp.as_str(),
            ),
            WorterbuchError::IllegalMultiWildcard(rp) => concat2(
                "Key contains illegal multi-wildcard: ",
                rp.as_str(),
            ),
            WorterbuchError::MultiWildcardAtIllegalPosition(rp) => concat2(
                "Key contains multi-wildcard at illegal position: ",
                rp.as_str(),
            ),
            WorterbuchError::NoSuchValue(key) => concat3("no value for key '", key.as_str(), "'"),
            WorterbuchError::NotSubscribed => "no such subscription".to_owned(),
            WorterbuchError::IoError(cause, meta) => concat3(meta.as_str(), ": ", cause.as_str()),
            WorterbuchError::SerDeError(cause, meta) => concat3(meta.as_str(), ": ", cause.as_str()),
            WorterbuchError::Other(cause, meta) => concat3(meta.as_str(), ": ", cause.as_str()),
            WorterbuchError::ServerResponse(e) => {
                let code = decimal_string(e.error_code as u64);
                let mut text = concat3("error ", code.as_str(), ": ");
                text = concat2(text.as_str(), e.metadata.as_str());
                text
            },
            WorterbuchError::ProtocolNegotiationFailed => {
                "The server does not implement any of the protocol versions supported by this client".to_owned()
            },
            WorterbuchError::InvalidServerResponse(meta) => concat2(
                "The server sent a response that is not valid for the issued request: ",
                meta.as_str(),
            ),
            WorterbuchError::ReadOnlyKey(key) => concat2(
                "Tried to modify a read only key: ",
                key.as_str(),
            ),
            WorterbuchError::AuthenticationRequired(op) => concat3(
                "Operation ",
                op.name(),
                " requires authentication",
            ),
            WorterbuchError::AlreadyAuthenticated => "Handshake already done".to_owned(),
            WorterbuchError::AuthenticationFailed => "Client failed to authenticate".to_owned(),
            WorterbuchError::Unauthorized(e) => e.message(),
        }
    }
}

} // verus!
