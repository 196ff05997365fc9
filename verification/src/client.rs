//! The client's correlation engine: the table of requests that await
//! their response, keyed by message id, and the rules that decide what
//! a request is sent as and what a response is taken for.
//!
//! The table holds, for each pending request, the fragments received
//! so far and a completion handle of the caller's choosing. It fires
//! no handle itself: it hands the handle out with the fragments when
//! the request completes, and all of them when the connection closes.

use vstd::prelude::*;
use std::collections::HashMap;
use vstd::std_specs::iter::IteratorSpec;
use crate::codec::{
    bind_request_bytes, encoded, ldap_write_bind_request, ldap_write_search_request,
    search_request_bytes,
};
use crate::error::Error;
use crate::ldap::{Message, MessageParams, MsgBind, MsgBindResponse};

verus! {

/// What is kept for a pending request: the fragments of the response
/// received so far, in arrival order, and the handle that completes
/// the waiting caller.
pub struct Context<H> {
    pub messages: Vec<Message>,
    pub notif: H,
}

/// The pending requests of one connection, and whether the
/// connection is gone. Once it is gone no request is pending and none
/// can be registered, so that no caller waits for a response that
/// cannot come.
pub struct Contexts<H> {
    contexts: HashMap<u32, Context<H>>,
    closed: bool,
}

/// Whether `m` ends a response: every kind of message does, but for a
/// search result entry, after which more fragments follow.
pub open spec fn is_last_fragment(m: Message) -> bool {
    !(m.params is SearchResult)
}

/// The table after a message was taken in: unchanged where its id is
/// not pending; without the request where the message ends the
/// response; with the message added to the fragments otherwise.
pub open spec fn table_after<H>(table: Map<u32, (Seq<Message>, H)>, m: Message) -> Map<
    u32,
    (Seq<Message>, H),
> {
    if !table.contains_key(m.id) {
        table
    } else if is_last_fragment(m) {
        table.remove(m.id)
    } else {
        table.insert(m.id, (table[m.id].0.push(m), table[m.id].1))
    }
}

/// What taking in a message releases: where it ends the response of a
/// pending request, all the fragments of that request in arrival
/// order, the message last, and the request's handle; otherwise
/// nothing.
pub open spec fn released<H>(table: Map<u32, (Seq<Message>, H)>, m: Message) -> Option<
    (Seq<Message>, H),
> {
    if table.contains_key(m.id) && is_last_fragment(m) {
        Some((table[m.id].0.push(m), table[m.id].1))
    } else {
        None
    }
}

/// The table after the first `n` of `messages` were taken in, one
/// after another.
pub open spec fn table_after_all<H>(
    table: Map<u32, (Seq<Message>, H)>,
    messages: Seq<Message>,
    n: int,
) -> Map<u32, (Seq<Message>, H)>
    decreases n,
{
    if n <= 0 || n > messages.len() {
        table
    } else {
        table_after(table_after_all(table, messages, n - 1), messages[n - 1])
    }
}

/// Fragments that do not end the response of a pending request are
/// collected in arrival order and release nothing.
pub proof fn lemma_fragments_are_collected<H>(
    table: Map<u32, (Seq<Message>, H)>,
    id: u32,
    entries: Seq<Message>,
    n: int,
)
    requires
        table.contains_key(id),
        0 <= n <= entries.len(),
        forall|i: int|
            0 <= i < entries.len() ==> (#[trigger] entries[i]).id == id && !is_last_fragment(
                entries[i],
            ),
    ensures
        table_after_all(table, entries, n) == table.insert(
            id,
            (table[id].0 + entries.subrange(0, n), table[id].1),
        ),
        forall|i: int|
            0 <= i < n ==> released(table_after_all(table, entries, i), #[trigger] entries[i])
                is None,
    decreases n,
{
    if n > 0 {
        lemma_fragments_are_collected(table, id, entries, n - 1);
        let before = table_after_all(table, entries, n - 1);
        assert(table[id].0 + entries.subrange(0, n) =~= (table[id].0 + entries.subrange(
            0,
            n - 1,
        )).push(entries[n - 1]));
        assert(table_after_all(table, entries, n) =~= table.insert(
            id,
            (table[id].0 + entries.subrange(0, n), table[id].1),
        ));
    } else {
        assert(table[id].0 + entries.subrange(0, 0) =~= table[id].0);
        assert(table.insert(id, (table[id].0, table[id].1)) =~= table);
    }
}

/// Aggregation. A request that was registered with no fragments, and
/// then receives any number of fragments that do not end the response
/// and one that does, releases exactly once: all of them in arrival
/// order, with its handle. It then is no longer pending, and a late
/// fragment for its id releases nothing and changes nothing.
pub proof fn lemma_aggregation<H>(
    table: Map<u32, (Seq<Message>, H)>,
    id: u32,
    handle: H,
    entries: Seq<Message>,
    last: Message,
    late: Message,
)
    requires
        forall|i: int|
            0 <= i < entries.len() ==> (#[trigger] entries[i]).id == id && !is_last_fragment(
                entries[i],
            ),
        last.id == id,
        is_last_fragment(last),
        late.id == id,
    ensures
        ({
            let registered = table.insert(id, (Seq::<Message>::empty(), handle));
            let collected = table_after_all(registered, entries, entries.len() as int);
            let done = table_after(collected, last);
            &&& forall|i: int|
                0 <= i < entries.len() ==> released(
                    table_after_all(registered, entries, i),
                    #[trigger] entries[i],
                ) is None
            &&& released(collected, last) == Some((entries.push(last), handle))
            &&& done == table.remove(id)
            &&& released(done, late) is None
            &&& table_after(done, late) == done
        }),
{
    let registered = table.insert(id, (Seq::<Message>::empty(), handle));
    lemma_fragments_are_collected(registered, id, entries, entries.len() as int);
    let collected = table_after_all(registered, entries, entries.len() as int);
    assert(Seq::<Message>::empty() + entries.subrange(0, entries.len() as int) =~= entries);
    assert(table_after(collected, last) =~= table.remove(id));
}

/// Disconnect resolution. Once the table is empty, as it is after the
/// connection is gone, a message that still arrives releases nothing
/// and leaves the table empty: every request was resolved when the
/// table was emptied, and none is resolved a second time.
pub proof fn lemma_nothing_is_released_twice<H>(m: Message)
    ensures
        released(Map::<u32, (Seq<Message>, H)>::empty(), m) is None,
        table_after(Map::<u32, (Seq<Message>, H)>::empty(), m) == Map::<
            u32,
            (Seq<Message>, H),
        >::empty(),
{
}

impl<H> Contexts<H> {
    /// The table as a map from message id to the fragments received
    /// and the handle.
    pub closed spec fn view(&self) -> Map<u32, (Seq<Message>, H)> {
        Map::new(
            |id: u32| self.contexts@.contains_key(id),
            |id: u32| (self.contexts@[id].messages@, self.contexts@[id].notif),
        )
    }

    /// Whether the connection is gone.
    pub closed spec fn is_closed(&self) -> bool {
        self.closed
    }

    /// Once the connection is gone, no request is pending.
    pub open spec fn wf(&self) -> bool {
        self.is_closed() ==> self@ == Map::<u32, (Seq<Message>, H)>::empty()
    }

    /// A table with no pending request, for a connection that is up.
    pub fn new() -> (table: Self)
        ensures
            table@ == Map::<u32, (Seq<Message>, H)>::empty(),
            !table.is_closed(),
    {
        let table = Contexts { contexts: HashMap::new(), closed: false };
        proof {
            assert(table@ =~= Map::<u32, (Seq<Message>, H)>::empty());
        }
        table
    }

    /// Whether the connection is gone.
    pub fn closed(&self) -> (closed: bool)
        ensures
            closed == self.is_closed(),
    {
        self.closed
    }

    /// Registers a pending request under `id`. A request that was
    /// pending under the same id is replaced and handed back. Once
    /// the connection is gone nothing is registered, and the request
    /// itself is handed back as an error.
    pub fn add(&mut self, id: u32, c: Context<H>) -> (replaced: Result<
        Option<Context<H>>,
        Context<H>,
    >)
        ensures
            final(self).is_closed() == old(self).is_closed(),
            old(self).wf() ==> final(self).wf(),
            old(self).is_closed() ==> replaced == Err::<Option<Context<H>>, Context<H>>(c)
                && final(self)@ == old(self)@,
            !old(self).is_closed() ==> final(self)@ == old(self)@.insert(
                id,
                (c.messages@, c.notif),
            ) && match replaced {
                Ok(Some(r)) => old(self)@.contains_key(id) && old(self)@[id] == (
                    r.messages@,
                    r.notif,
                ),
                Ok(None) => !old(self)@.contains_key(id),
                Err(_) => false,
            },
    {
        if self.closed {
            return Err(c);
        }
        let replaced = self.contexts.insert(id, c);
        proof {
            assert(self@ =~= old(self)@.insert(id, (c.messages@, c.notif)));
        }
        Ok(replaced)
    }

    /// Drops the pending request under `id`, if there is one, and
    /// hands it back.
    pub fn remove(&mut self, id: u32) -> (removed: Option<Context<H>>)
        ensures
            final(self).is_closed() == old(self).is_closed(),
            old(self).wf() ==> final(self).wf(),
            final(self)@ == old(self)@.remove(id),
            match removed {
                Some(r) => old(self)@.contains_key(id) && old(self)@[id] == (r.messages@, r.notif),
                None => !old(self)@.contains_key(id),
            },
    {
        let removed = self.contexts.remove(&id);
        proof {
            assert(self@ =~= old(self)@.remove(id));
            if old(self).wf() && self.is_closed() {
                assert(self@ =~= Map::<u32, (Seq<Message>, H)>::empty());
            }
        }
        removed
    }

    /// Takes in a message from the connection. A message whose id is
    /// not pending is dropped. Otherwise it is added to the fragments
    /// of its request; if it ends the response, the request leaves the
    /// table, and its fragments and its handle are handed out.
    pub fn update(&mut self, m: Message) -> (completed: Option<(Vec<Message>, H)>)
        ensures
            final(self).is_closed() == old(self).is_closed(),
            old(self).wf() ==> final(self).wf(),
            final(self)@ == table_after(old(self)@, m),
            match released(old(self)@, m) {
                Some((fragments, handle)) => {
                    &&& completed matches Some((messages, notif))
                    &&& messages@ == fragments
                    &&& notif == handle
                },
                None => completed is None,
            },
    {
        let id = m.id;
        let last_fragment = !matches!(m.params, MessageParams::SearchResult(_));
        proof {
            if old(self).wf() && self.is_closed() {
                assert(table_after(old(self)@, m) =~= Map::<u32, (Seq<Message>, H)>::empty());
            }
        }
        match self.contexts.remove(&id) {
            Some(c) => {
                let mut c = c;
                c.messages.push(m);
                if last_fragment {
                    proof {
                        assert(self@ =~= old(self)@.remove(id));
                    }
                    Some((c.messages, c.notif))
                } else {
                    let ghost entry = (c.messages@, c.notif);
                    self.contexts.insert(id, c);
                    proof {
                        assert(self@ =~= old(self)@.insert(id, entry));
                    }
                    None
                }
            },
            None => {
                proof {
                    assert(self@ =~= old(self)@);
                }
                None
            },
        }
    }
}

impl<H> Contexts<H> {
    /// The ids of the pending requests, each once, in no particular
    /// order.
    pub fn pending_ids(&self) -> (ids: Vec<u32>)
        ensures
            ids@.no_duplicates(),
            ids@.to_set() == self@.dom(),
    {
        let mut ids: Vec<u32> = Vec::new();
        let ghost keys = vstd::std_specs::hash::spec_keys_iter(&self.contexts).remaining();
        for id in iter: self.contexts.keys()
            invariant
                iter.seq() == keys,
                ids@.len() == iter.index(),
                forall|j: int| 0 <= j < ids@.len() ==> ids@[j] == *iter.seq()[j],
        {
            ids.push(*id);
        }
        proof {
            assert(ids@ =~= keys.unref());
            assert(self@.dom() =~= self.contexts@.dom());
        }
        ids
    }

    /// Empties the table when the connection is gone, and hands out
    /// the id and the handle of every request that was pending, each
    /// once, so that every waiting caller can be told. The order is
    /// not determined.
    pub fn close(&mut self) -> (abandoned: Vec<(u32, H)>)
        ensures
            final(self).is_closed(),
            final(self).wf(),
            final(self)@ == Map::<u32, (Seq<Message>, H)>::empty(),
            abandoned@.len() == old(self)@.dom().len(),
            forall|id: u32| #[trigger]
                old(self)@.contains_key(id) ==> exists|i: int|
                    0 <= i < abandoned@.len() && abandoned@[i].0 == id,
            forall|i: int|
                0 <= i < abandoned@.len() ==> old(self)@.contains_key(#[trigger] abandoned@[i].0)
                    && abandoned@[i].1 == old(self)@[abandoned@[i].0].1,
            forall|i: int, j: int|
                0 <= i < j < abandoned@.len() ==> abandoned@[i].0 != abandoned@[j].0,
    {
        let ids = self.pending_ids();
        let mut abandoned: Vec<(u32, H)> = Vec::new();
        let mut i: usize = 0;
        proof {
            ids@.unique_seq_to_set();
            assert(self@.dom().finite());
        }
        while i < ids.len()
            invariant
                i <= ids@.len(),
                ids@.no_duplicates(),
                ids@.to_set() == old(self)@.dom(),
                ids@.len() == old(self)@.dom().len(),
                abandoned@.len() == i,
                forall|k: int|
                    0 <= k < i ==> (#[trigger] abandoned@[k]).0 == ids@[k] && abandoned@[k].1
                        == old(self)@[ids@[k]].1,
                forall|id: u32| #[trigger]
                    self@.contains_key(id) <==> old(self)@.contains_key(id) && !among(
                        ids@,
                        i as int,
                        id,
                    ),
                forall|id: u32| #[trigger] self@.contains_key(id) ==> self@[id] == old(self)@[id],
            decreases ids@.len() - i,
        {
            let id = ids[i];
            proof {
                assert(ids@.to_set().contains(ids@[i as int]));
                assert(self@.contains_key(id));
            }
            let ghost before = self@;
            match self.contexts.remove(&id) {
                Some(c) => {
                    abandoned.push((id, c.notif));
                },
                None => {},
            }
            proof {
                assert(self@ =~= before.remove(id));
                assert forall|other: u32| #[trigger]
                    self@.contains_key(other) <==> old(self)@.contains_key(other) && !among(
                        ids@,
                        i + 1,
                        other,
                    ) by {
                    lemma_among_next(ids@, i as int, other);
                }
            }
            i += 1;
        }
        proof {
            assert forall|id: u32| !self@.contains_key(id) by {
                if old(self)@.contains_key(id) {
                    assert(ids@.to_set().contains(id));
                    let k = choose|k: int| 0 <= k < ids@.len() && ids@[k] == id;
                    assert(among(ids@, ids@.len() as int, id));
                }
            }
            assert(self@ =~= Map::<u32, (Seq<Message>, H)>::empty());
        }
        self.closed = true;
        proof {
            assert(self@ =~= Map::<u32, (Seq<Message>, H)>::empty());
            assert forall|id: u32| #[trigger] old(self)@.contains_key(id) implies exists|k: int|
                0 <= k < abandoned@.len() && abandoned@[k].0 == id by {
                assert(ids@.to_set().contains(id));
                let k = choose|k: int| 0 <= k < ids@.len() && ids@[k] == id;
                assert(abandoned@[k].0 == id);
            }
            assert forall|k: int| 0 <= k < abandoned@.len() implies old(self)@.contains_key(
                #[trigger] abandoned@[k].0,
            ) && abandoned@[k].1 == old(self)@[abandoned@[k].0].1 by {
                assert(ids@.to_set().contains(ids@[k]));
            }
        }
        abandoned
    }
}

/// Whether `id` is among the first `n` of `ids`.
pub open spec fn among(ids: Seq<u32>, n: int, id: u32) -> bool {
    exists|k: int| 0 <= k < n && k < ids.len() && #[trigger] ids[k] == id
}

/// One more of the ids adds that one id.
pub proof fn lemma_among_next(ids: Seq<u32>, n: int, id: u32)
    requires
        0 <= n < ids.len(),
    ensures
        among(ids, n + 1, id) <==> among(ids, n, id) || ids[n] == id,
{
    if among(ids, n, id) {
        let k = choose|k: int| 0 <= k < n && k < ids.len() && #[trigger] ids[k] == id;
        assert(0 <= k < n + 1 && ids[k] == id);
    }
    if ids[n] == id {
        assert(0 <= n < n + 1 && ids[n] == id);
    }
}

/// Whether `m` is of a kind that a client sends: a bind or a search
/// request.
pub open spec fn is_request(m: Message) -> bool {
    m.params is Bind || m.params is Search
}

/// What a request is sent as: a bind request by its name and
/// password, under version 3 whatever its own version says, and a
/// search request by its parameters.
pub open spec fn request_bytes(m: Message) -> Option<Seq<u8>> {
    match m.params {
        MessageParams::Bind(b) => bind_request_bytes(m.id, b.name@, b.password@),
        MessageParams::Search(s) => search_request_bytes(m.id, s@),
        _ => None,
    }
}

/// Encodes a request for sending. Messages of the other kinds are not
/// requests and are refused as invalid data.
pub fn encode_request(msg: &Message) -> (bytes: Result<Vec<u8>, Error>)
    ensures
        is_request(*msg) ==> encoded(bytes, request_bytes(*msg)),
        !is_request(*msg) ==> (bytes matches Err(kind) && kind == Error::InvalidData),
{
    match &msg.params {
        MessageParams::Bind(b) => ldap_write_bind_request(
            msg.id,
            b.name.as_str(),
            b.password.as_str(),
        ),
        MessageParams::Search(s) => ldap_write_search_request(msg.id, s),
        _ => Err(Error::InvalidData),
    }
}

/// The bind request that `send_request_bind` sends: version 3 with
/// the name and the password.
pub fn bind_request(id: u32, name: &str, password: &str) -> (msg: Message)
    ensures
        msg.id == id,
        msg.params matches MessageParams::Bind(b) && b.version == 3 && b.name@ == name@
            && b.password@ == password@,
{
    Message {
        id,
        params: MessageParams::Bind(
            MsgBind { version: 3, name: name.to_owned(), password: password.to_owned() },
        ),
    }
}

/// What the response to a bind request must be: exactly one fragment,
/// a bind response. Anything else is invalid data.
pub fn bind_response(fragments: Vec<Message>) -> (response: Result<MsgBindResponse, Error>)
    ensures
        response == if fragments@.len() == 1 && fragments@[0].params is BindResponse {
            Ok::<MsgBindResponse, Error>(fragments@[0].params->BindResponse_0)
        } else {
            Err::<MsgBindResponse, Error>(Error::InvalidData)
        },
{
    let mut fragments = fragments;
    if fragments.len() == 1 {
        if let MessageParams::BindResponse(r) = fragments.remove(0).params {
            return Ok(r);
        }
    }
    Err(Error::InvalidData)
}

} // verus!