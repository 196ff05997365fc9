//! A small LDAP wire-protocol stack: a BER tag-length-value codec, the
//! message codec on top of it, a framer that cuts a byte stream into
//! messages, the client's table of pending requests and the server's
//! per-connection decisions.
//!
//! Every function states its behaviour over byte sequences and views
//! of the message types, and is proved against that statement.

pub mod asn1;
pub mod client;
pub mod codec;
pub mod error;
pub mod ldap;
pub mod roundtrip;
pub mod server;
pub mod tokiou;
