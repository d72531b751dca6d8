//! A hierarchical key/value store with publish/subscribe semantics.
//!
//! Keys are paths of segments (`a/b/c`), subscriptions may use a
//! single-segment and a trailing multi-segment wildcard. The crate holds the
//! store itself, the subscriber index, the request engine that ties both
//! together, the per-connection session rules and the binary wire framing.
//! Every executable function carries a contract that Verus proves.

pub mod actor;
pub mod aggregator;
pub mod auth;
pub mod binary;
pub mod client;
pub mod codec;
pub mod decode;
pub mod display;
pub mod encoding;
pub mod error;
pub mod key;
pub mod laws;
pub mod ls;
pub mod memory;
pub mod node;
pub mod order;
pub mod reply;
pub mod server;
pub mod session;
pub mod store;
pub mod subscribers;
pub mod text;
pub mod traversal;
pub mod v0;
pub mod worterbuch;
