//! The stream framer: it collects the bytes of a stream in a bounded
//! buffer and cuts them into messages.
//!
//! The framer does no I/O. Its user reads from the transport, feeds
//! what was read, and asks for the next message.

use vstd::prelude::*;
use crate::codec::{
    lemma_parse_cut, lemma_parse_ignores_rest, lemma_parse_prefix_needs_more, lemma_parse_takes,
    parse_message, spec_parse_message,
};
use crate::error::Error;
use crate::ldap::{Message, MessageView};

verus! {

/// The capacity of the receive buffer.
pub const MAX_SIZE: usize = 1024 * 32;

/// The framer's state: a buffer of fixed capacity and the number of
/// bytes held in it. The bytes held are those received and not yet
/// decoded; they start at the front of the buffer.
pub struct DecodeContext {
    buffer: Vec<u8>,
    have: usize,
}

impl DecodeContext {
    /// The buffer has its full capacity and holds no more than that.
    pub closed spec fn wf(&self) -> bool {
        self.buffer@.len() == MAX_SIZE && self.have <= MAX_SIZE
    }

    /// The bytes received and not yet decoded.
    pub closed spec fn held(&self) -> Seq<u8> {
        self.buffer@.subrange(0, self.have as int)
    }

    /// A framer that holds nothing.
    pub fn new() -> (context: Self)
        ensures
            context.wf(),
            context.held() == Seq::<u8>::empty(),
    {
        let context = DecodeContext { buffer: vec![0u8; MAX_SIZE], have: 0 };
        proof {
            assert(context.held() =~= Seq::<u8>::empty());
        }
        context
    }

    /// The number of bytes that can still be fed.
    pub fn free(&self) -> (free: usize)
        requires
            self.wf(),
        ensures
            free == MAX_SIZE - self.held().len(),
    {
        MAX_SIZE - self.have
    }

    /// Takes in what one read from the transport returned. A read of
    /// nothing is the end of the stream; more than the buffer has room
    /// for is refused. Either way the framer is left as it was.
    pub fn feed(&mut self, chunk: &[u8]) -> (done: Result<(), Error>)
        requires
            old(self).wf(),
        ensures
            final(self).wf(),
            final(self).held() == if done is Ok {
                old(self).held() + chunk@
            } else {
                old(self).held()
            },
            done == if chunk@.len() == 0 {
                Err::<(), Error>(Error::ConnectionClosed)
            } else if old(self).held().len() + chunk@.len() > MAX_SIZE {
                Err::<(), Error>(Error::TooLarge)
            } else {
                Ok::<(), Error>(())
            },
    {
        if chunk.len() == 0 {
            return Err(Error::ConnectionClosed);
        }
        if chunk.len() > MAX_SIZE - self.have {
            return Err(Error::TooLarge);
        }
        let start = self.have;
        let mut i: usize = 0;
        while i < chunk.len()
            invariant
                i <= chunk@.len(),
                self.buffer@.len() == MAX_SIZE,
                start + chunk@.len() <= MAX_SIZE,
                self.have == start + i,
                self.held() == old(self).held() + chunk@.subrange(0, i as int),
            decreases chunk@.len() - i,
        {
            let ghost before = self.held();
            self.buffer[start + i] = chunk[i];
            self.have = start + i + 1;
            proof {
                assert(self.held() =~= before.push(chunk@[i as int]));
                assert(chunk@.subrange(0, i + 1) =~= chunk@.subrange(0, i as int).push(
                    chunk@[i as int],
                ));
            }
            i += 1;
        }
        proof {
            assert(chunk@.subrange(0, chunk@.len() as int) =~= chunk@);
        }
        Ok(())
    }

    /// Decodes the next message from the bytes held, if all of it is
    /// there, and drops its bytes; what follows them moves to the
    /// front. Where more bytes are needed it returns nothing, unless
    /// the buffer is full: then the message cannot be received at all.
    /// On an error the framer is left as it was.
    pub fn next_message(&mut self) -> (next: Result<Option<Message>, Error>)
        requires
            old(self).wf(),
        ensures
            final(self).wf(),
            match spec_parse_message(old(self).held()) {
                Ok((message, used)) => {
                    &&& next matches Ok(Some(m))
                    &&& m@ == message
                    &&& final(self).held() == old(self).held().skip(used)
                },
                Err(kind) => {
                    &&& final(self).held() == old(self).held()
                    &&& if kind != Error::NeedMoreData {
                        next matches Err(e) && e == kind
                    } else if old(self).held().len() == MAX_SIZE {
                        next matches Err(e) && e == Error::TooLarge
                    } else {
                        next matches Ok(None)
                    }
                },
            },
    {
        let have = self.have;
        proof {
            lemma_parse_takes(self.held());
        }
        let parsed = parse_message(vstd::slice::slice_subrange(self.buffer.as_slice(), 0, have));
        let (message, used) = match parsed {
            Ok(found) => found,
            Err(Error::NeedMoreData) => {
                if have == MAX_SIZE {
                    return Err(Error::TooLarge);
                }
                return Ok(None);
            },
            Err(kind) => {
                return Err(kind);
            },
        };
        let rest = have - used;
        let ghost before = self.buffer@;
        let mut i: usize = 0;
        while i < rest
            invariant
                i <= rest,
                rest == have - used,
                have <= MAX_SIZE,
                1 <= used <= have,
                self.have == have,
                self.buffer@.len() == MAX_SIZE,
                forall|k: int| 0 <= k < i ==> self.buffer@[k] == before[k + used],
                forall|k: int| i <= k < MAX_SIZE ==> self.buffer@[k] == before[k],
            decreases rest - i,
        {
            let byte = self.buffer[i + used];
            self.buffer[i] = byte;
            i += 1;
        }
        self.have = rest;
        proof {
            assert(self.held() =~= old(self).held().skip(used as int));
        }
        Ok(Some(message))
    }
}

impl Default for DecodeContext {
    fn default() -> (context: Self)
        ensures
            context.wf(),
            context.held() == Seq::<u8>::empty(),
    {
        Self::new()
    }
}

/// The bytes of the first `n` of `chunks`, one chunk after another.
pub open spec fn fed(chunks: Seq<Seq<u8>>, n: int) -> Seq<u8>
    decreases n,
{
    if n <= 0 || n > chunks.len() {
        Seq::empty()
    } else {
        fed(chunks, n - 1) + chunks[n - 1]
    }
}

/// The first chunks are the beginning of all the chunks.
pub proof fn lemma_fed_prefix(chunks: Seq<Seq<u8>>, k: int, n: int)
    requires
        0 <= k <= n <= chunks.len(),
    ensures
        fed(chunks, k).len() <= fed(chunks, n).len(),
        fed(chunks, k) == fed(chunks, n).subrange(0, fed(chunks, k).len() as int),
    decreases n - k,
{
    if k < n {
        lemma_fed_prefix(chunks, k, n - 1);
        assert(fed(chunks, k) =~= fed(chunks, n).subrange(0, fed(chunks, k).len() as int));
    } else {
        assert(fed(chunks, k) =~= fed(chunks, n).subrange(0, fed(chunks, k).len() as int));
    }
}

/// Framing under fragmentation. Let a stream that begins with a
/// message arrive in chunks, cut anywhere. After each chunk the bytes
/// held so far decode to a request for more data while the message is
/// not all there, and from then on to the message that the whole
/// stream decodes to, with the same number of bytes.
pub proof fn lemma_framing_under_fragmentation(chunks: Seq<Seq<u8>>, k: int)
    requires
        spec_parse_message(fed(chunks, chunks.len() as int)) is Ok,
        0 <= k <= chunks.len(),
    ensures
        spec_parse_message(fed(chunks, k)) == if fed(chunks, k).len() < spec_parse_message(
            fed(chunks, chunks.len() as int),
        )->Ok_0.1 {
            Err::<(MessageView, int), Error>(Error::NeedMoreData)
        } else {
            spec_parse_message(fed(chunks, chunks.len() as int))
        },
{
    let whole = fed(chunks, chunks.len() as int);
    let part = fed(chunks, k);
    let total = spec_parse_message(whole)->Ok_0.1;
    lemma_parse_takes(whole);
    lemma_fed_prefix(chunks, k, chunks.len() as int);
    if part.len() < total {
        lemma_parse_prefix_needs_more(whole, part.len() as int);
    } else {
        let message = whole.subrange(0, total);
        lemma_parse_cut(whole);
        assert(message + part.skip(total) =~= part);
        assert(message + whole.skip(total) =~= whole);
        lemma_parse_ignores_rest(message, part.skip(total));
    }
}

} // verus!
