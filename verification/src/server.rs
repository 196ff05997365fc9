//! The server side: where it listens, what a handler is, and what the
//! dispatcher does with a handler's outcome.
//!
//! Accepting connections, spawning the handlers and writing to the
//! socket are the business of the program around the library.

use vstd::prelude::*;
use std::future::Future;
use crate::codec::{
    bind_response_bytes, encoded, ldap_write_bind_response, ldap_write_search_res_done,
    ldap_write_search_res_entry, search_res_done_bytes, search_res_entry_bytes,
};
use crate::error::Error;
use crate::ldap::{attributes_view, Message, MessageParams, PartialAttribute};

verus! {

/// The handler that answers the requests of a server. For each
/// decoded message it produces, in time, the bytes to write back,
/// none where there is nothing to answer, or a failure.
pub trait Service {
    type Future: Future<Output = Result<Vec<u8>, Error>> + Send + Sync + 'static;

    fn call(&self, req: Message) -> Self::Future;
}

/// A server and the address that it listens on.
pub struct LdapServer {
    listen_address: String,
}

impl LdapServer {
    /// The address that the server listens on.
    pub closed spec fn address(&self) -> Seq<char> {
        self.listen_address@
    }

    /// A server that will listen on `listen_address`.
    pub fn new(listen_address: String) -> (server: Self)
        ensures
            server.address() == listen_address@,
    {
        Self { listen_address }
    }

    /// The address that the server listens on.
    pub fn listen_address(&self) -> (address: &str)
        ensures
            address@ == self.address(),
    {
        self.listen_address.as_str()
    }
}

/// What the dispatcher writes back for the outcome of a handler: the
/// bytes of a success, unless there are none. A failure is written as
/// nothing; the connection goes on.
pub fn response_to_write(outcome: Result<Vec<u8>, Error>) -> (bytes: Option<Vec<u8>>)
    ensures
        bytes == match outcome {
            Ok(b) if b@.len() > 0 => Some(b),
            _ => None,
        },
{
    match outcome {
        Ok(bytes) => if bytes.len() > 0 {
            Some(bytes)
        } else {
            None
        },
        Err(_) => None,
    }
}

/// The attributes of the entry that the example handler finds.
pub open spec fn example_attributes() -> Seq<crate::ldap::PartialAttributeView> {
    seq![
        crate::ldap::PartialAttributeView { name: "a1"@, values: seq!["aaa"@, "bbbb"@] },
        crate::ldap::PartialAttributeView { name: "a2"@, values: seq!["aaa2"@, "bbbb2"@] },
    ]
}

/// What the example handler answers to `req`: to a bind request a
/// bind response, to an unbind request nothing, to a search request
/// the entry "n1" followed by the end of the result with code 1. Other
/// messages are no requests.
pub open spec fn example_reply_bytes(req: Message) -> Result<Option<Seq<u8>>, Error> {
    match req.params {
        MessageParams::Bind(_) => Ok(bind_response_bytes(req.id)),
        MessageParams::Unbind(_) => Ok(Some(Seq::empty())),
        MessageParams::Search(_) => Ok(
            crate::asn1::enc_cat(
                search_res_entry_bytes(req.id, "n1"@, example_attributes()),
                search_res_done_bytes(req.id, 1),
            ),
        ),
        _ => Err(Error::InvalidData),
    }
}

/// An example of a handler's work: it accepts every bind and finds the
/// same one entry in every search.
pub fn example_reply(req: &Message) -> (reply: Result<Vec<u8>, Error>)
    ensures
        match example_reply_bytes(*req) {
            Ok(bytes) => encoded(reply, bytes),
            Err(kind) => reply matches Err(e) && e == kind,
        },
{
    let id = req.id;
    match &req.params {
        MessageParams::Bind(_) => ldap_write_bind_response(id),
        MessageParams::Unbind(_) => Ok(Vec::new()),
        MessageParams::Search(_) => {
            let mut first: Vec<String> = Vec::new();
            first.push("aaa".to_owned());
            first.push("bbbb".to_owned());
            let mut second: Vec<String> = Vec::new();
            second.push("aaa2".to_owned());
            second.push("bbbb2".to_owned());
            let mut attrs: Vec<PartialAttribute> = Vec::new();
            attrs.push(PartialAttribute { name: "a1".to_owned(), values: first });
            attrs.push(PartialAttribute { name: "a2".to_owned(), values: second });
            proof {
                assert(crate::ldap::strings_view(first@) =~= seq!["aaa"@, "bbbb"@]);
                assert(crate::ldap::strings_view(second@) =~= seq!["aaa2"@, "bbbb2"@]);
                assert(attributes_view(attrs@) =~= example_attributes());
            }
            let mut resp1 = ldap_write_search_res_entry(id, "n1", &attrs)?;
            let mut resp2 = ldap_write_search_res_done(id, 1)?;
            resp1.append(&mut resp2);
            Ok(resp1)
        },
        _ => Err(Error::InvalidData),
    }
}

} // verus!
