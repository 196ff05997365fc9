//! The message codec: the wire format of the messages and of search
//! filters, as functions from bytes to messages and back.
//!
//! The format is stated twice, once for each direction, as spec
//! functions over byte sequences and views; the executable functions
//! are proved to compute exactly those.

use vstd::prelude::*;
use vstd::utf8::*;
use vstd::slice::slice_subrange;
use crate::asn1::{
    close_all, close_one, enc_bool, enc_cat, enc_enum, enc_int, enc_tlv, read_element, read_size,
    lemma_element_moves, lemma_moved, lemma_size_moves, read_string, read_tag, read_uint, reads,
    spec_read_element, spec_read_size, spec_read_string, str_from_utf8,
    spec_read_tag, spec_read_uint, Cursor, Encoder, MAX_SHORT_LEN,
};
use crate::error::Error;
use crate::ldap::{
    attributes_view, filters_view, lemma_and_view, strings_view, DerefAliases, Filter, FilterAnd,
    FilterAttributeValueAssertion, FilterPresent, FilterView, Message, MessageParams,
    MessageParamsView, MessageView, MsgBind, MsgBindResponse, MsgBindResponseView, MsgBindView,
    MsgSearch, MsgSearchResult, MsgSearchResultDone, MsgSearchResultView, MsgSearchView,
    MsgUnbind, PartialAttribute, PartialAttributeView, SearchScope,
};

verus! {

/// The longest declared size that a filter element may have.
pub const LDAP_MAX_PARAM_SIZE: usize = 1024;

/// What reading the rest of an equality filter gives, after its tag:
/// a size of at most 1024, which is not used further, and two strings.
#[verifier::opaque]
pub open spec fn spec_read_filter_attr_val_assertion(s: Seq<u8>) -> Option<
    ((Seq<char>, Seq<char>), int),
> {
    match spec_read_size(s) {
        Some((size, n)) if size <= LDAP_MAX_PARAM_SIZE => match spec_read_string(s.skip(n)) {
            Some((name, n1)) => match spec_read_string(s.skip(n).skip(n1)) {
                Some((value, n2)) => Some(((name, value), n + n1 + n2)),
                None => None,
            },
            None => None,
        },
        _ => None,
    }
}

/// What reading the rest of a presence filter gives, after its tag: a
/// size of at most 1024 and as many bytes of valid UTF-8.
#[verifier::opaque]
pub open spec fn spec_read_filter_attr_desc(s: Seq<u8>) -> Option<(Seq<char>, int)> {
    match spec_read_size(s) {
        Some((size, n)) if size <= LDAP_MAX_PARAM_SIZE && n + size <= s.len() && valid_utf8(
            s.subrange(n, n + size),
        ) => Some((decode_utf8(s.subrange(n, n + size)), n + size)),
        _ => None,
    }
}

/// What reading a filter from the front of `s` gives. The tag decides:
/// 0xa0 a conjunction, 0xa3 an equality, 0x87 a presence test; any
/// other tag is an empty filter of that one byte.
pub open spec fn spec_read_filter(s: Seq<u8>) -> Option<(FilterView, int)>
    decreases s.len(), 0int,
{
    if s.len() == 0 {
        None
    } else if s[0] == 0xa0 {
        match spec_read_filter_and(s.skip(1)) {
            Some((items, n)) => Some((FilterView::And { items }, 1 + n)),
            None => None,
        }
    } else if s[0] == 0xa3 {
        match spec_read_filter_attr_val_assertion(s.skip(1)) {
            Some(((name, value), n)) => Some((FilterView::EqualityMatch { name, value }, 1 + n)),
            None => None,
        }
    } else if s[0] == 0x87 {
        match spec_read_filter_attr_desc(s.skip(1)) {
            Some((name, n)) => Some((FilterView::Present { name }, 1 + n)),
            None => None,
        }
    } else {
        Some((FilterView::Empty, 1))
    }
}

/// What reading the rest of a conjunction gives, after its tag: a size
/// of at most 1024 and as many bytes, which hold the items and nothing
/// else.
pub open spec fn spec_read_filter_and(s: Seq<u8>) -> Option<(Seq<FilterView>, int)>
    decreases s.len(), 2int,
{
    match spec_read_size(s) {
        Some((size, n)) if size <= LDAP_MAX_PARAM_SIZE && 1 <= n && n + size <= s.len() => {
            match spec_read_filters(s.subrange(n, n + size)) {
                Some(items) => Some((items, n + size)),
                None => None,
            }
        },
        _ => None,
    }
}

/// What reading filters from `s` until nothing is left gives. A filter
/// that needs more than is left makes the whole reading fail.
pub open spec fn spec_read_filters(s: Seq<u8>) -> Option<Seq<FilterView>>
    decreases s.len(), 1int,
{
    if s.len() == 0 {
        Some(Seq::empty())
    } else {
        match spec_read_filter(s) {
            Some((first, n)) if 1 <= n <= s.len() => match spec_read_filters(s.skip(n)) {
                Some(rest) => Some(seq![first] + rest),
                None => None,
            },
            _ => None,
        }
    }
}

/// A filter takes at least its tag and no more than is there.
pub proof fn lemma_filter_moves(s: Seq<u8>)
    ensures
        spec_read_filter(s) matches Some((_, n)) ==> 1 <= n <= s.len(),
{
    reveal(spec_read_filter_attr_val_assertion);
    reveal(spec_read_filter_attr_desc);
    if s.len() > 0 {
        let rest = s.skip(1);
        lemma_size_moves(rest);
        if spec_read_size(rest) is Some {
            let (size, n) = spec_read_size(rest)->0;
            lemma_element_moves(rest.skip(n));
            if spec_read_string(rest.skip(n)) is Some {
                let (name, n1) = spec_read_string(rest.skip(n))->0;
                lemma_element_moves(rest.skip(n).skip(n1));
            }
        }
    }
}

/// Reads the rest of an equality filter, after its tag.
pub fn ldap_read_filter_attr_val_assertion(cursor: &mut Cursor) -> (assertion: Result<
    FilterAttributeValueAssertion,
    Error,
>)
    ensures
        reads(
            *old(cursor),
            *final(cursor),
            match assertion {
                Ok(a) => Ok((a.name@, a.value@)),
                Err(e) => Err(e),
            },
            spec_read_filter_attr_val_assertion(old(cursor).remaining()),
        ),
{
    proof {
        reveal(spec_read_filter_attr_val_assertion);
    }
    let start = cursor.position();
    let size = read_size(cursor)?;
    if size > LDAP_MAX_PARAM_SIZE {
        cursor.restore(start);
        return Err(Error::Malformed);
    }
    let name = match read_string(cursor) {
        Ok(name) => name,
        Err(e) => {
            cursor.restore(start);
            return Err(e);
        },
    };
    let value = match read_string(cursor) {
        Ok(value) => value,
        Err(e) => {
            cursor.restore(start);
            return Err(e);
        },
    };
    proof {
        lemma_moved(*old(cursor), *cursor, cursor.pos() - start);
    }
    Ok(FilterAttributeValueAssertion { name, value })
}

/// Reads the rest of a presence filter, after its tag.
pub fn ldap_read_filter_attr_desc(cursor: &mut Cursor) -> (present: Result<FilterPresent, Error>)
    ensures
        reads(
            *old(cursor),
            *final(cursor),
            match present {
                Ok(p) => Ok(p.name@),
                Err(e) => Err(e),
            },
            spec_read_filter_attr_desc(old(cursor).remaining()),
        ),
{
    proof {
        reveal(spec_read_filter_attr_desc);
    }
    let start = cursor.position();
    let ghost s = cursor.remaining();
    let size = read_size(cursor)?;
    if size > LDAP_MAX_PARAM_SIZE {
        cursor.restore(start);
        return Err(Error::Malformed);
    }
    proof {
        assert(cursor.remaining() =~= s.skip(cursor.pos() - start));
    }
    let ghost n = cursor.pos() - start;
    let bytes = match cursor.read_exact(size) {
        Ok(bytes) => bytes,
        Err(e) => {
            cursor.restore(start);
            return Err(e);
        },
    };
    proof {
        assert(bytes@ =~= s.subrange(n, n + size));
        lemma_moved(*old(cursor), *cursor, n + size);
    }
    match str_from_utf8(bytes) {
        Some(name) => Ok(FilterPresent { name: name.to_owned() }),
        None => {
            cursor.restore(start);
            Err(Error::Malformed)
        },
    }
}

/// Reads the rest of a conjunction, after its tag.
pub fn ldap_read_filter_and(cursor: &mut Cursor) -> (and: Result<FilterAnd, Error>)
    ensures
        reads(
            *old(cursor),
            *final(cursor),
            match and {
                Ok(a) => Ok(filters_view(a.items@)),
                Err(e) => Err(e),
            },
            spec_read_filter_and(old(cursor).remaining()),
        ),
    decreases old(cursor).remaining().len(), 2int,
{
    proof {
        lemma_size_moves(cursor.remaining());
    }
    let start = cursor.position();
    let ghost s = cursor.remaining();
    let size = read_size(cursor)?;
    if size > LDAP_MAX_PARAM_SIZE {
        cursor.restore(start);
        return Err(Error::Malformed);
    }
    proof {
        assert(cursor.remaining() =~= s.skip(cursor.pos() - start));
    }
    let ghost n = cursor.pos() - start;
    let window = match cursor.read_exact(size) {
        Ok(window) => window,
        Err(e) => {
            cursor.restore(start);
            return Err(e);
        },
    };
    proof {
        assert(window@ =~= s.subrange(n, n + size));
    }
    let mut inner = Cursor::new(window);
    let mut items: Vec<Filter> = Vec::new();
    proof {
        assert(inner.remaining() =~= window@);
        assert(filters_view(items@) =~= Seq::<FilterView>::empty());
    }
    while inner.left() > 0
        invariant
            inner.data() == window@,
            inner.pos() <= window@.len(),
            s == old(cursor).remaining(),
            spec_read_size(s) == Some((size, n)),
            size <= LDAP_MAX_PARAM_SIZE,
            1 <= n,
            n + size <= s.len(),
            window@ == s.subrange(n, n + size),
            cursor.data() == old(cursor).data(),
            start == old(cursor).pos(),
            cursor.pos() == start + n + size,
            start <= cursor.data().len(),
            spec_read_filters(window@) == match spec_read_filters(inner.remaining()) {
                Some(rest) => Some(filters_view(items@) + rest),
                None => None,
            },
        decreases inner.remaining().len(),
    {
        let ghost before = inner.remaining();
        let ghost done = filters_view(items@);
        proof {
            lemma_filter_moves(before);
        }
        let item = match ldap_read_filter(&mut inner) {
            Ok(item) => item,
            Err(e) => {
                cursor.restore(start);
                return Err(e);
            },
        };
        items.push(item);
        proof {
            let (first, k) = spec_read_filter(before)->0;
            assert(inner.remaining() =~= before.skip(k));
            assert(filters_view(items@) =~= done.push(first));
            match spec_read_filters(inner.remaining()) {
                Some(rest) => {
                    assert(done + (seq![first] + rest) =~= done.push(first) + rest);
                },
                None => {},
            }
        }
    }
    proof {
        assert(filters_view(items@) + Seq::<FilterView>::empty() =~= filters_view(items@));
        lemma_moved(*old(cursor), *cursor, n + size);
    }
    Ok(FilterAnd { items })
}

/// Reads a filter: a tag, and what the tag asks for.
pub fn ldap_read_filter(cursor: &mut Cursor) -> (filter: Result<Filter, Error>)
    ensures
        reads(
            *old(cursor),
            *final(cursor),
            match filter {
                Ok(f) => Ok(f@),
                Err(e) => Err(e),
            },
            spec_read_filter(old(cursor).remaining()),
        ),
    decreases old(cursor).remaining().len(), 0int,
{
    let start = cursor.position();
    let tag = read_tag(cursor)?;
    let filter = match tag {
        0xa0 => match ldap_read_filter_and(cursor) {
            Ok(and) => {
                proof {
                    lemma_and_view(and);
                }
                Ok(Filter::And(and))
            },
            Err(e) => {
                cursor.restore(start);
                Err(e)
            },
        },
        0xa3 => match ldap_read_filter_attr_val_assertion(cursor) {
            Ok(assertion) => Ok(Filter::EqualityMatch(assertion)),
            Err(e) => {
                cursor.restore(start);
                Err(e)
            },
        },
        0x87 => match ldap_read_filter_attr_desc(cursor) {
            Ok(present) => Ok(Filter::Present(present)),
            Err(e) => {
                cursor.restore(start);
                Err(e)
            },
        },
        _ => Ok(Filter::Empty()),
    };
    proof {
        if filter is Ok {
            lemma_moved(*old(cursor), *cursor, cursor.pos() - start);
        }
    }
    filter
}

/// How the result of reading a whole value relates to what the bytes
/// spell: the value with that view, or `Malformed`.
pub open spec fn parsed<T: View>(result: Result<T, Error>, expected: Option<T::V>) -> bool {
    match expected {
        Some(v) => result matches Ok(x) && x@ == v,
        None => result matches Err(e) && e == Error::Malformed,
    }
}

/// The parameters of a bind request: the version, the name and the
/// password. Where nothing follows the name the password is absent
/// and taken for the empty one. Where something follows, it must be
/// the password: bytes that are no string make the request malformed.
#[verifier::opaque]
pub open spec fn spec_read_bind(s: Seq<u8>) -> Option<MsgBindView> {
    match spec_read_uint(s) {
        Some((version, n0)) => match spec_read_string(s.skip(n0)) {
            Some((name, n1)) => {
                let rest = s.skip(n0).skip(n1);
                if rest.len() == 0 {
                    Some(MsgBindView { version, name, password: Seq::empty() })
                } else {
                    match spec_read_string(rest) {
                        Some((password, _)) => Some(MsgBindView { version, name, password }),
                        None => None,
                    }
                }
            },
            None => None,
        },
        None => None,
    }
}

/// The parameters of a bind response: the result code, the matched
/// name and the diagnostic message.
#[verifier::opaque]
pub open spec fn spec_read_bind_response(s: Seq<u8>) -> Option<MsgBindResponseView> {
    match spec_read_uint(s) {
        Some((res, n0)) => match spec_read_string(s.skip(n0)) {
            Some((matched_dn, n1)) => match spec_read_string(s.skip(n0).skip(n1)) {
                Some((diag, _)) => Some(MsgBindResponseView { res, matched_dn, diag }),
                None => None,
            },
            None => None,
        },
        None => None,
    }
}

/// What reading the numbers of a search request gives: the scope, the
/// alias policy, the size limit and the time limit as integers, and
/// one more integer that is dropped.
#[verifier::opaque]
pub open spec fn spec_read_search_numbers(s: Seq<u8>) -> Option<((u32, u32, u32, u32), int)> {
    match spec_read_uint(s) {
        Some((scope, n1)) => match spec_read_uint(s.skip(n1)) {
            Some((deref, n2)) => match spec_read_uint(s.skip(n1).skip(n2)) {
                Some((size_limit, n3)) => match spec_read_uint(s.skip(n1).skip(n2).skip(n3)) {
                    Some((time_limit, n4)) => match spec_read_uint(
                        s.skip(n1).skip(n2).skip(n3).skip(n4),
                    ) {
                        Some((_, n5)) => Some(
                            ((scope, deref, size_limit, time_limit), n1 + n2 + n3 + n4 + n5),
                        ),
                        None => None,
                    },
                    None => None,
                },
                None => None,
            },
            None => None,
        },
        None => None,
    }
}

/// The parameters of a search request: the base object, the numbers,
/// of which the first two must stand for a scope and an alias policy,
/// and the filter. A number that stands for no scope or no policy,
/// which the conversion of that number by itself reports as invalid
/// data, leaves no search request to read: in a message it is one
/// more way of being malformed.
#[verifier::opaque]
pub open spec fn spec_read_search(s: Seq<u8>) -> Option<MsgSearchView> {
    match spec_read_string(s) {
        Some((base_object, n0)) => match spec_read_search_numbers(s.skip(n0)) {
            Some(((scope, deref, size_limit, time_limit), n1)) => match (
                SearchScope::spec_try_from(scope),
                DerefAliases::spec_try_from(deref),
                spec_read_filter(s.skip(n0).skip(n1)),
            ) {
                (Some(scope), Some(deref), Some((filter, _))) => Some(
                    MsgSearchView { base_object, scope, deref, filter, size_limit, time_limit },
                ),
                _ => None,
            },
            None => None,
        },
        None => None,
    }
}

/// What reading strings from `s` until nothing is left gives.
pub open spec fn spec_read_strings(s: Seq<u8>) -> Option<Seq<Seq<char>>>
    decreases s.len(),
{
    if s.len() == 0 {
        Some(Seq::empty())
    } else {
        match spec_read_string(s) {
            Some((first, n)) if 1 <= n <= s.len() => match spec_read_strings(s.skip(n)) {
                Some(rest) => Some(seq![first] + rest),
                None => None,
            },
            _ => None,
        }
    }
}

/// What reading an attribute from the front of `s` gives: a tag and a
/// size, which are not used further, the name, and an element whose
/// contents are the values and nothing else.
#[verifier::opaque]
pub open spec fn spec_read_attribute(s: Seq<u8>) -> Option<(PartialAttributeView, int)> {
    match spec_read_tag(s) {
        Some((_, n0)) => {
            let s1 = s.skip(n0);
            match spec_read_size(s1) {
                Some((_, n1)) => {
                    let s2 = s1.skip(n1);
                    match spec_read_string(s2) {
                        Some((name, n2)) => match spec_read_element(s2.skip(n2)) {
                            Some((_, window, n3)) => match spec_read_strings(window) {
                                Some(values) => Some(
                                    (PartialAttributeView { name, values }, n0 + n1 + n2 + n3),
                                ),
                                None => None,
                            },
                            None => None,
                        },
                        None => None,
                    }
                },
                None => None,
            }
        },
        None => None,
    }
}

/// What reading attributes from `s` until nothing is left gives.
pub open spec fn spec_read_attributes(s: Seq<u8>) -> Option<Seq<PartialAttributeView>>
    decreases s.len(),
{
    if s.len() == 0 {
        Some(Seq::empty())
    } else {
        match spec_read_attribute(s) {
            Some((first, n)) if 1 <= n <= s.len() => match spec_read_attributes(s.skip(n)) {
                Some(rest) => Some(seq![first] + rest),
                None => None,
            },
            _ => None,
        }
    }
}

/// The parameters of a search result entry: the name, a tag and a size
/// that are not used further, and attributes up to the end of the
/// message.
#[verifier::opaque]
pub open spec fn spec_read_search_result(s: Seq<u8>) -> Option<MsgSearchResultView> {
    match spec_read_string(s) {
        Some((name, n0)) => {
            let s1 = s.skip(n0);
            match spec_read_tag(s1) {
                Some((_, n1)) => {
                    let s2 = s1.skip(n1);
                    match spec_read_size(s2) {
                        Some((_, n2)) => match spec_read_attributes(s2.skip(n2)) {
                            Some(values) => Some(MsgSearchResultView { name, values }),
                            None => None,
                        },
                        None => None,
                    }
                },
                None => None,
            }
        },
        None => None,
    }
}

/// The parameters of the end of a search result: the result code.
#[verifier::opaque]
pub open spec fn spec_read_search_result_done(s: Seq<u8>) -> Option<MsgSearchResultDone> {
    match spec_read_uint(s) {
        Some((res, _)) => Some(MsgSearchResultDone { res }),
        None => None,
    }
}

/// The parameters that follow the application tag `tag` and its size.
/// Tags other than those of the six kinds have none.
#[verifier::opaque]
pub open spec fn spec_read_params(tag: u8, s: Seq<u8>) -> Option<MessageParamsView> {
    if tag == 0x60 {
        match spec_read_bind(s) {
            Some(b) => Some(MessageParamsView::Bind(b)),
            None => None,
        }
    } else if tag == 0x61 {
        match spec_read_bind_response(s) {
            Some(b) => Some(MessageParamsView::BindResponse(b)),
            None => None,
        }
    } else if tag == 0x63 {
        match spec_read_search(s) {
            Some(b) => Some(MessageParamsView::Search(b)),
            None => None,
        }
    } else if tag == 0x64 {
        match spec_read_search_result(s) {
            Some(b) => Some(MessageParamsView::SearchResult(b)),
            None => None,
        }
    } else if tag == 0x65 {
        match spec_read_search_result_done(s) {
            Some(b) => Some(MessageParamsView::MsgSearchResultDone(b)),
            None => None,
        }
    } else {
        None
    }
}

/// The message that `body` holds, the contents of the outer sequence:
/// the id, the application tag and, but for an unbind request, the
/// size of the parameters, which is not used further, and the
/// parameters.
#[verifier::opaque]
pub open spec fn spec_read_message(body: Seq<u8>) -> Option<MessageView> {
    match spec_read_uint(body) {
        Some((id, n0)) => {
            let s1 = body.skip(n0);
            match spec_read_tag(s1) {
                Some((tag, n1)) => {
                    let s2 = s1.skip(n1);
                    if tag == 0x42 {
                        Some(MessageView { id, params: MessageParamsView::Unbind(MsgUnbind {  }) })
                    } else {
                        match spec_read_size(s2) {
                            Some((_, n2)) => match spec_read_params(tag, s2.skip(n2)) {
                                Some(params) => Some(MessageView { id, params }),
                                None => None,
                            },
                            None => None,
                        }
                    }
                },
                None => None,
            }
        },
        None => None,
    }
}

/// Whether the outer length of `data` is cut short: it is in long form
/// and the bytes that spell it are not all there.
pub open spec fn length_cut_short(data: Seq<u8>) -> bool {
    data.len() >= 2 && data[1] >= 0x80 && data.len() < 2 + (data[1] - 0x80)
}

/// What `data`, the bytes received so far, decode to: a message and
/// the number of bytes that it takes, the outer tag and length and as
/// many bytes as that length declares; `NeedMoreData` where fewer than
/// four bytes, not all of the length, or not all of the declared bytes
/// are there; `Malformed` otherwise. These are the only outcomes: a
/// scope or an alias policy out of range is `Malformed` too.
pub open spec fn spec_parse_message(data: Seq<u8>) -> Result<(MessageView, int), Error> {
    if data.len() < 4 || length_cut_short(data) {
        Err(Error::NeedMoreData)
    } else {
        match spec_read_size(data.skip(1)) {
            Some((len, n)) => {
                let total = 1 + n + len;
                if data.len() < total {
                    Err(Error::NeedMoreData)
                } else {
                    match spec_read_message(data.subrange(1 + n, total)) {
                        Some(message) => Ok((message, total)),
                        None => Err(Error::Malformed),
                    }
                }
            },
            None => Err(Error::Malformed),
        }
    }
}

/// Reads the parameters of a bind request.
fn read_bind(cursor: &mut Cursor) -> (bind: Result<MsgBind, Error>)
    ensures
        parsed(bind, spec_read_bind(old(cursor).remaining())),
{
    proof {
        reveal(spec_read_bind);
    }
    let version = read_uint(cursor)?;
    let name = read_string(cursor)?;
    let password = if cursor.left() == 0 {
        String::new()
    } else {
        read_string(cursor)?
    };
    Ok(MsgBind { version, name, password })
}

/// Reads the parameters of a bind response.
fn read_bind_response(cursor: &mut Cursor) -> (response: Result<MsgBindResponse, Error>)
    ensures
        parsed(response, spec_read_bind_response(old(cursor).remaining())),
{
    proof {
        reveal(spec_read_bind_response);
    }
    let res = read_uint(cursor)?;
    let matched_dn = read_string(cursor)?;
    let diag = read_string(cursor)?;
    Ok(MsgBindResponse { res, matched_dn, diag })
}

/// Reads the numbers of a search request.
fn read_search_numbers(cursor: &mut Cursor) -> (numbers: Result<(u32, u32, u32, u32), Error>)
    ensures
        match spec_read_search_numbers(old(cursor).remaining()) {
            Some((found, n)) => {
                &&& numbers == Ok::<(u32, u32, u32, u32), Error>(found)
                &&& final(cursor).remaining() == old(cursor).remaining().skip(n)
            },
            None => numbers == Err::<(u32, u32, u32, u32), Error>(Error::Malformed),
        },
{
    proof {
        reveal(spec_read_search_numbers);
    }
    let start = cursor.position();
    let scope = read_uint(cursor)?;
    let deref = read_uint(cursor)?;
    let size_limit = read_uint(cursor)?;
    let time_limit = read_uint(cursor)?;
    let _typed_only = read_uint(cursor)?;
    proof {
        lemma_moved(*old(cursor), *cursor, cursor.pos() - start);
    }
    Ok((scope, deref, size_limit, time_limit))
}

/// Reads the parameters of a search request. A number that stands for
/// no scope or no alias policy makes the request malformed, as every
/// other fault in the bytes of a message does.
fn read_search(cursor: &mut Cursor) -> (search: Result<MsgSearch, Error>)
    ensures
        parsed(search, spec_read_search(old(cursor).remaining())),
{
    proof {
        reveal(spec_read_search);
    }
    let base_object = read_string(cursor)?;
    let (scope, deref, size_limit, time_limit) = read_search_numbers(cursor)?;
    let scope = match SearchScope::try_from(scope) {
        Ok(scope) => scope,
        Err(_) => {
            return Err(Error::Malformed);
        },
    };
    let deref = match DerefAliases::try_from(deref) {
        Ok(deref) => deref,
        Err(_) => {
            return Err(Error::Malformed);
        },
    };
    let filter = ldap_read_filter(cursor)?;
    Ok(MsgSearch { base_object, scope, deref, filter, size_limit, time_limit })
}

/// Reads strings until `cursor` has nothing left.
fn read_strings(cursor: &mut Cursor) -> (strings: Result<Vec<String>, Error>)
    ensures
        match spec_read_strings(old(cursor).remaining()) {
            Some(v) => strings matches Ok(x) && strings_view(x@) == v,
            None => strings matches Err(e) && e == Error::Malformed,
        },
{
    let ghost s = cursor.remaining();
    let mut strings: Vec<String> = Vec::new();
    proof {
        assert(strings_view(strings@) =~= Seq::<Seq<char>>::empty());
    }
    while cursor.left() > 0
        invariant
            s == old(cursor).remaining(),
            spec_read_strings(s) == match spec_read_strings(cursor.remaining()) {
                Some(rest) => Some(strings_view(strings@) + rest),
                None => None,
            },
        decreases cursor.remaining().len(),
    {
        let ghost done = strings_view(strings@);
        proof {
            lemma_element_moves(cursor.remaining());
        }
        let text = read_string(cursor)?;
        strings.push(text);
        proof {
            assert(strings_view(strings@) =~= done.push(text@));
            match spec_read_strings(cursor.remaining()) {
                Some(rest) => {
                    assert(done + (seq![text@] + rest) =~= done.push(text@) + rest);
                },
                None => {},
            }
        }
    }
    proof {
        assert(strings_view(strings@) + Seq::<Seq<char>>::empty() =~= strings_view(strings@));
    }
    Ok(strings)
}

/// Reads one attribute with its values.
fn read_attribute(cursor: &mut Cursor) -> (attribute: Result<PartialAttribute, Error>)
    ensures
        final(cursor).data() == old(cursor).data(),
        match spec_read_attribute(old(cursor).remaining()) {
            Some((v, n)) => {
                &&& attribute matches Ok(x)
                &&& x@ == v
                &&& 1 <= n <= old(cursor).remaining().len()
                &&& final(cursor).remaining() == old(cursor).remaining().skip(n)
            },
            None => attribute matches Err(e) && e == Error::Malformed,
        },
{
    proof {
        reveal(spec_read_attribute);
    }
    let start = cursor.position();
    let _tag = read_tag(cursor)?;
    let _size = read_size(cursor)?;
    let name = read_string(cursor)?;
    let (_, window) = read_element(cursor)?;
    let mut inner = Cursor::new(window);
    proof {
        assert(inner.remaining() =~= window@);
    }
    let values = read_strings(&mut inner)?;
    proof {
        lemma_moved(*old(cursor), *cursor, cursor.pos() - start);
    }
    Ok(PartialAttribute { name, values })
}

/// Reads the parameters of a search result entry.
fn read_search_result(cursor: &mut Cursor) -> (entry: Result<MsgSearchResult, Error>)
    ensures
        parsed(entry, spec_read_search_result(old(cursor).remaining())),
{
    proof {
        reveal(spec_read_search_result);
    }
    let name = read_string(cursor)?;
    let _tag = read_tag(cursor)?;
    let _size = read_size(cursor)?;
    let ghost s = cursor.remaining();
    let mut values: Vec<PartialAttribute> = Vec::new();
    proof {
        assert(attributes_view(values@) =~= Seq::<PartialAttributeView>::empty());
    }
    while cursor.left() > 0
        invariant
            spec_read_search_result(old(cursor).remaining()) == match spec_read_attributes(s) {
                Some(values) => Some(MsgSearchResultView { name: name@, values }),
                None => None,
            },
            spec_read_attributes(s) == match spec_read_attributes(cursor.remaining()) {
                Some(rest) => Some(attributes_view(values@) + rest),
                None => None,
            },
        decreases cursor.remaining().len(),
    {
        let ghost done = attributes_view(values@);
        let attribute = read_attribute(cursor)?;
        values.push(attribute);
        proof {
            assert(attributes_view(values@) =~= done.push(attribute@));
            match spec_read_attributes(cursor.remaining()) {
                Some(rest) => {
                    assert(done + (seq![attribute@] + rest) =~= done.push(attribute@) + rest);
                },
                None => {},
            }
        }
    }
    proof {
        assert(attributes_view(values@) + Seq::<PartialAttributeView>::empty() =~= attributes_view(
            values@,
        ));
    }
    Ok(MsgSearchResult { name, values })
}

/// Reads the parameters that follow the application tag `tag` and its
/// size.
fn read_params(tag: u8, cursor: &mut Cursor) -> (params: Result<MessageParams, Error>)
    ensures
        parsed(params, spec_read_params(tag, old(cursor).remaining())),
{
    proof {
        reveal(spec_read_params);
        reveal(spec_read_search_result_done);
    }
    match tag {
        0x60 => match read_bind(cursor) {
            Ok(bind) => Ok(MessageParams::Bind(bind)),
            Err(e) => Err(e),
        },
        0x61 => match read_bind_response(cursor) {
            Ok(response) => Ok(MessageParams::BindResponse(response)),
            Err(e) => Err(e),
        },
        0x63 => match read_search(cursor) {
            Ok(search) => Ok(MessageParams::Search(search)),
            Err(e) => Err(e),
        },
        0x64 => match read_search_result(cursor) {
            Ok(entry) => Ok(MessageParams::SearchResult(entry)),
            Err(e) => Err(e),
        },
        0x65 => match read_uint(cursor) {
            Ok(res) => Ok(MessageParams::MsgSearchResultDone(MsgSearchResultDone { res })),
            Err(e) => Err(e),
        },
        _ => Err(Error::Malformed),
    }
}

/// Reads the message that `body` holds, the contents of the outer
/// sequence.
fn read_message(body: &[u8]) -> (message: Result<Message, Error>)
    ensures
        parsed(message, spec_read_message(body@)),
{
    let mut cursor = Cursor::new(body);
    proof {
        reveal(spec_read_message);
        assert(cursor.remaining() =~= body@);
    }
    let id = read_uint(&mut cursor)?;
    let tag = read_tag(&mut cursor)?;
    if tag == 0x42 {
        return Ok(Message { id, params: MessageParams::Unbind(MsgUnbind {  }) });
    }
    let _size = read_size(&mut cursor)?;
    let params = read_params(tag, &mut cursor)?;
    Ok(Message { id, params })
}

/// Decodes the first message in `data`, the bytes received so far, and
/// says how many bytes it takes. Bytes after the message are not
/// looked at. It fails with `NeedMoreData` or with `Malformed` and
/// with no other error: a scope or an alias policy out of range, which
/// `try_from` reports as invalid data, is reported as `Malformed`
/// here.
pub fn parse_message(data: &[u8]) -> (message: Result<(Message, usize), Error>)
    ensures
        match spec_parse_message(data@) {
            Ok((v, n)) => message matches Ok((m, used)) && m@ == v && used == n,
            Err(kind) => message matches Err(e) && e == kind,
        },
{
    if data.len() < 4 {
        return Err(Error::NeedMoreData);
    }
    if data[1] >= 0x80 && data.len() - 2 < (data[1] - 0x80) as usize {
        return Err(Error::NeedMoreData);
    }
    let mut cursor = Cursor::new(data);
    proof {
        assert(cursor.remaining() =~= data@);
    }
    let _start_seq_tag = read_tag(&mut cursor)?;
    let start_seq_len = read_size(&mut cursor)?;
    let header = cursor.position();
    if start_seq_len > data.len() - header {
        return Err(Error::NeedMoreData);
    }
    let total = header + start_seq_len;
    let message = read_message(slice_subrange(data, header, total))?;
    Ok((message, total))
}

/// A string as an element under `tag`: its UTF-8 bytes as contents.
pub open spec fn enc_text(tag: u8, text: Seq<char>) -> Option<Seq<u8>> {
    enc_tlv(tag, Some(encode_utf8(text)))
}

/// The encoding of a message: the outer sequence under tag 0x30 holds
/// the id and, under the application tag `tag`, the parameters.
pub open spec fn message_bytes(id: u32, tag: u8, params: Option<Seq<u8>>) -> Option<Seq<u8>> {
    enc_tlv(0x30, enc_cat(enc_int(id), enc_tlv(tag, params)))
}

/// How the result of an encoding relates to what the format asks for:
/// those bytes, or `Unsupported` where the format has none.
pub open spec fn encoded(result: Result<Vec<u8>, Error>, expected: Option<Seq<u8>>) -> bool {
    match expected {
        Some(bytes) => result matches Ok(v) && v@ == bytes,
        None => result matches Err(e) && e == Error::Unsupported,
    }
}

/// Closing the sequence that was opened last, after `prefix`, wraps
/// what was written since as the contents of an element.
pub proof fn lemma_close_last(prefix: Seq<u8>, tag: u8, content: Seq<u8>)
    ensures
        close_one(prefix + seq![tag, 0u8] + content, prefix.len() as int) == match enc_tlv(
            tag,
            Some(content),
        ) {
            Some(element) => Some(prefix + element),
            None => None,
        },
{
    let bytes = prefix + seq![tag, 0u8] + content;
    if content.len() <= MAX_SHORT_LEN {
        assert(bytes.update(prefix.len() as int + 1, content.len() as u8) =~= prefix + (seq![
            tag,
            content.len() as u8,
        ] + content));
    }
}

/// Closing a message whose two sequences are still open gives the
/// encoding of the message.
pub proof fn lemma_close_message(id: u32, tag: u8, params: Seq<u8>)
    requires
        enc_int(id) is Some,
    ensures
        close_all(
            seq![0x30u8, 0u8] + enc_int(id)->0 + seq![tag, 0u8] + params,
            seq![0int, 2 + enc_int(id)->0.len() as int],
        ) == message_bytes(id, tag, Some(params)),
{
    let head = seq![0x30u8, 0u8] + enc_int(id)->0;
    let bytes = head + seq![tag, 0u8] + params;
    let stack = seq![0int, 2 + enc_int(id)->0.len() as int];
    reveal_with_fuel(close_all, 3);
    lemma_close_last(head, tag, params);
    assert(stack.drop_last() =~= seq![0int]);
    assert(stack.drop_last().drop_last() =~= Seq::<int>::empty());
    match enc_tlv(tag, Some(params)) {
        Some(element) => {
            let empty = Seq::<u8>::empty();
            lemma_close_last(empty, 0x30u8, enc_int(id)->0 + element);
            assert(head + element =~= empty + seq![0x30u8, 0u8] + (enc_int(id)->0 + element));
            match enc_tlv(0x30u8, Some(enc_int(id)->0 + element)) {
                Some(whole) => {
                    assert(empty + whole =~= whole);
                },
                None => {},
            }
        },
        None => {},
    }
}

/// The encoding of a bind request: version 3, the name, and the
/// password under tag 0x80.
pub open spec fn bind_request_bytes(id: u32, name: Seq<char>, password: Seq<char>) -> Option<
    Seq<u8>,
> {
    message_bytes(
        id,
        0x60,
        enc_cat(enc_cat(enc_int(3), enc_text(0x04, name)), enc_text(0x80, password)),
    )
}

/// Encodes a bind request.
pub fn ldap_write_bind_request(id: u32, name: &str, password: &str) -> (bytes: Result<
    Vec<u8>,
    Error,
>)
    ensures
        encoded(bytes, bind_request_bytes(id, name@, password@)),
{
    let mut e = Encoder::new();
    e.start_seq(0x30)?;
    e.write_int(id)?;
    e.start_seq(0x60)?;
    e.write_int(3)?;
    e.write_octet_string(name.as_bytes())?;
    e.write_octet_string_with_tag(0x80, password.as_bytes())?;
    proof {
        let params = enc_int(3)->0 + enc_text(0x04, name@)->0 + enc_text(0x80, password@)->0;
        assert(e.bytes() =~= seq![0x30u8, 0u8] + enc_int(id)->0 + seq![0x60u8, 0u8] + params);
        assert(e.open_seqs() =~= seq![0int, 2 + enc_int(id)->0.len() as int]);
        lemma_close_message(id, 0x60, params);
    }
    e.encode()
}

/// The encoding of a filter. An empty filter has no bytes, a presence
/// test is its name under tag 0x87, an equality is a sequence under
/// tag 0xa3 of the name and the value, a conjunction is a sequence
/// under tag 0xa0 of its items.
pub open spec fn filter_bytes(f: FilterView) -> Option<Seq<u8>>
    decreases f, 0int,
{
    match f {
        FilterView::Empty => Some(Seq::empty()),
        FilterView::EqualityMatch { name, value } => enc_tlv(
            0xa3,
            enc_cat(enc_text(0x04, name), enc_text(0x04, value)),
        ),
        FilterView::Present { name } => enc_text(0x87, name),
        FilterView::And { items } => enc_tlv(0xa0, filters_bytes(items, items.len() as int)),
    }
}

/// The encodings of the first `n` of `items`, one after another.
pub open spec fn filters_bytes(items: Seq<FilterView>, n: int) -> Option<Seq<u8>>
    decreases items, n,
{
    if n <= 0 || n > items.len() {
        Some(Seq::empty())
    } else {
        enc_cat(filters_bytes(items, n - 1), filter_bytes(items[n - 1]))
    }
}

/// Where some of the items have no encoding, more of them have none.
pub proof fn lemma_filters_bytes_none(items: Seq<FilterView>, k: int, n: int)
    requires
        0 <= k <= n <= items.len(),
        filters_bytes(items, k) is None,
    ensures
        filters_bytes(items, n) is None,
    decreases n - k,
{
    if k < n {
        lemma_filters_bytes_none(items, k, n - 1);
    }
}

/// Appends the encoding of `f`.
fn enc_filter(e: &mut Encoder, f: &Filter) -> (done: Result<(), Error>)
    requires
        old(e).wf(),
    ensures
        final(e).wf(),
        match filter_bytes(f@) {
            Some(bytes) => {
                &&& done is Ok
                &&& final(e).bytes() == old(e).bytes() + bytes
                &&& final(e).open_seqs() == old(e).open_seqs()
            },
            None => done matches Err(kind) && kind == Error::Unsupported,
        },
    decreases f,
{
    let ghost before = e.bytes();
    let ghost stack = e.open_seqs();
    match f {
        Filter::Empty() => {
            proof {
                assert(before + Seq::<u8>::empty() =~= before);
            }
            Ok(())
        },
        Filter::EqualityMatch(a) => {
            e.start_seq(0xa3)?;
            e.write_octet_string(a.name.as_str().as_bytes())?;
            e.write_octet_string(a.value.as_str().as_bytes())?;
            proof {
                let content = enc_text(0x04, a.name@)->0 + enc_text(0x04, a.value@)->0;
                assert(e.bytes() =~= before + seq![0xa3u8, 0u8] + content);
                assert(e.open_seqs().last() == before.len());
                assert(e.open_seqs().drop_last() =~= stack);
                lemma_close_last(before, 0xa3, content);
            }
            e.end_seq()
        },
        Filter::Present(p) => e.write_octet_string_with_tag(0x87, p.name.as_str().as_bytes()),
        Filter::And(a) => {
            e.start_seq(0xa0)?;
            let ghost items = filters_view(a.items@);
            proof {
                lemma_and_view(*a);
                assert(e.bytes() =~= before + seq![0xa0u8, 0u8] + Seq::<u8>::empty());
            }
            let mut i: usize = 0;
            while i < a.items.len()
                invariant
                    i <= a.items.len(),
                    *f == Filter::And(*a),
                    items == filters_view(a.items@),
                    f@ == (FilterView::And { items }),
                    e.wf(),
                    e.open_seqs() == stack.push(before.len() as int),
                    filters_bytes(items, i as int) is Some,
                    e.bytes() == before + seq![0xa0u8, 0u8] + filters_bytes(items, i as int)->0,
                decreases a.items.len() - i,
            {
                proof {
                    vstd::std_specs::vec::axiom_vec_index_decreases(a.items, i as int);
                    assert(decreases_to!(*f => f->And_0));
                    assert(items[i as int] == a.items@[i as int]@);
                }
                let ghost sofar = filters_bytes(items, i as int)->0;
                match enc_filter(e, &a.items[i]) {
                    Ok(()) => {},
                    Err(kind) => {
                        proof {
                            assert(filters_bytes(items, i + 1) is None);
                            lemma_filters_bytes_none(items, i + 1, items.len() as int);
                        }
                        return Err(kind);
                    },
                }
                proof {
                    let item = filter_bytes(items[i as int])->0;
                    assert(before + seq![0xa0u8, 0u8] + sofar + item =~= before + seq![0xa0u8, 0u8]
                        + (sofar + item));
                }
                i += 1;
            }
            proof {
                let content = filters_bytes(items, items.len() as int)->0;
                assert(e.open_seqs().last() == before.len());
                assert(e.open_seqs().drop_last() =~= stack);
                lemma_close_last(before, 0xa0, content);
            }
            e.end_seq()
        },
    }
}

/// The parameters of a search request, encoded: the base object, the
/// scope and the alias policy as enumerated values, the two limits,
/// the boolean false, and the filter.
pub open spec fn search_params_bytes(msg: MsgSearchView) -> Option<Seq<u8>> {
    enc_cat(
        enc_cat(
            enc_cat(
                enc_cat(
                    enc_text(0x04, msg.base_object),
                    Some(enc_enum(msg.scope.spec_code()) + enc_enum(msg.deref.spec_code())),
                ),
                enc_cat(enc_int(msg.size_limit), enc_int(msg.time_limit)),
            ),
            Some(enc_bool(false)),
        ),
        filter_bytes(msg.filter),
    )
}

/// The encoding of a search request.
pub open spec fn search_request_bytes(id: u32, msg: MsgSearchView) -> Option<Seq<u8>> {
    message_bytes(id, 0x63, search_params_bytes(msg))
}

/// Appends the parameters of a search request.
fn enc_search(e: &mut Encoder, msg: &MsgSearch) -> (done: Result<(), Error>)
    requires
        old(e).wf(),
    ensures
        final(e).wf(),
        match search_params_bytes(msg@) {
            Some(bytes) => {
                &&& done is Ok
                &&& final(e).bytes() == old(e).bytes() + bytes
                &&& final(e).open_seqs() == old(e).open_seqs()
            },
            None => done matches Err(kind) && kind == Error::Unsupported,
        },
{
    let ghost before = e.bytes();
    e.write_octet_string(msg.base_object.as_str().as_bytes())?;
    e.write_enum(msg.scope.code())?;
    e.write_enum(msg.deref.code())?;
    let ghost enums = enc_enum(msg.scope.spec_code()) + enc_enum(msg.deref.spec_code());
    let ghost first = enc_text(0x04, msg.base_object@)->0 + enums;
    proof {
        assert(e.bytes() =~= before + first);
    }
    e.write_int(msg.size_limit)?;
    e.write_int(msg.time_limit)?;
    let ghost limits = enc_int(msg.size_limit)->0 + enc_int(msg.time_limit)->0;
    proof {
        assert(e.bytes() =~= before + (first + limits));
    }
    e.write_bool(false)?;
    enc_filter(e, &msg.filter)?;
    proof {
        assert(e.bytes() =~= before + (first + limits + enc_bool(false) + filter_bytes(
            msg.filter@,
        )->0));
    }
    Ok(())
}

/// Encodes a search request.
pub fn ldap_write_search_request(id: u32, msg: &MsgSearch) -> (bytes: Result<Vec<u8>, Error>)
    ensures
        encoded(bytes, search_request_bytes(id, msg@)),
{
    let mut e = Encoder::new();
    e.start_seq(0x30)?;
    e.write_int(id)?;
    e.start_seq(0x63)?;
    let ghost head = e.bytes();
    enc_search(&mut e, msg)?;
    proof {
        let params = search_params_bytes(msg@)->0;
        assert(head =~= seq![0x30u8, 0u8] + enc_int(id)->0 + seq![0x63u8, 0u8]);
        assert(e.open_seqs() =~= seq![0int, 2 + enc_int(id)->0.len() as int]);
        lemma_close_message(id, 0x63, params);
    }
    e.encode()
}

/// The encoding of a bind response: the result code 0 as an
/// enumerated value, and two empty strings.
pub open spec fn bind_response_bytes(id: u32) -> Option<Seq<u8>> {
    message_bytes(
        id,
        0x61,
        enc_cat(
            enc_cat(Some(enc_enum(0)), enc_tlv(0x04, Some(Seq::empty()))),
            enc_tlv(0x04, Some(Seq::empty())),
        ),
    )
}

/// Encodes a bind response that reports success.
pub fn ldap_write_bind_response(id: u32) -> (bytes: Result<Vec<u8>, Error>)
    ensures
        encoded(bytes, bind_response_bytes(id)),
{
    let nothing: Vec<u8> = Vec::new();
    let mut e = Encoder::new();
    e.start_seq(0x30)?;
    e.write_int(id)?;
    e.start_seq(0x61)?;
    e.write_enum(0)?;
    e.write_octet_string(nothing.as_slice())?;
    e.write_octet_string(nothing.as_slice())?;
    proof {
        let empty = enc_tlv(0x04, Some(Seq::<u8>::empty()))->0;
        let params = enc_enum(0) + empty + empty;
        assert(e.bytes() =~= seq![0x30u8, 0u8] + enc_int(id)->0 + seq![0x61u8, 0u8] + params);
        assert(e.open_seqs() =~= seq![0int, 2 + enc_int(id)->0.len() as int]);
        lemma_close_message(id, 0x61, params);
    }
    e.encode()
}

/// The encoding of the end of a search result: the result code as an
/// enumerated value, which holds codes up to 255, and the strings
/// "a1" and "a2".
pub open spec fn search_res_done_bytes(id: u32, res: u32) -> Option<Seq<u8>> {
    if res > u8::MAX {
        None
    } else {
        message_bytes(
            id,
            0x65,
            enc_cat(
                enc_cat(Some(enc_enum(res as u8)), enc_text(0x04, "a1"@)),
                enc_text(0x04, "a2"@),
            ),
        )
    }
}

/// Encodes the end of a search result.
pub fn ldap_write_search_res_done(id: u32, res: u32) -> (bytes: Result<Vec<u8>, Error>)
    ensures
        encoded(bytes, search_res_done_bytes(id, res)),
{
    if res > 255 {
        return Err(Error::Unsupported);
    }
    let mut e = Encoder::new();
    e.start_seq(0x30)?;
    e.write_int(id)?;
    e.start_seq(0x65)?;
    e.write_enum(res as u8)?;
    e.write_octet_string("a1".as_bytes())?;
    e.write_octet_string("a2".as_bytes())?;
    let ghost params = enc_enum(res as u8) + enc_text(0x04, "a1"@)->0 + enc_text(0x04, "a2"@)->0;
    let ghost head = seq![0x30u8, 0u8] + enc_int(id)->0;
    proof {
        assert(e.bytes() =~= head + seq![0x65u8, 0u8] + params);
        assert(e.open_seqs() =~= seq![0int, 2 + enc_int(id)->0.len() as int]);
        assert(e.open_seqs().drop_last() =~= seq![0int]);
        lemma_close_last(head, 0x65, params);
    }
    e.end_seq()?;
    proof {
        let element = enc_tlv(0x65, Some(params))->0;
        let empty = Seq::<u8>::empty();
        assert(e.bytes() =~= empty + seq![0x30u8, 0u8] + (enc_int(id)->0 + element));
        assert(e.open_seqs().drop_last() =~= Seq::<int>::empty());
        lemma_close_last(empty, 0x30, enc_int(id)->0 + element);
        match enc_tlv(0x30u8, Some(enc_int(id)->0 + element)) {
            Some(whole) => {
                assert(empty + whole =~= whole);
            },
            None => {},
        }
    }
    e.end_seq()?;
    e.encode()
}

/// The encodings of the first `n` of `values` as octet strings, one
/// after another.
pub open spec fn texts_bytes(values: Seq<Seq<char>>, n: int) -> Option<Seq<u8>>
    decreases n,
{
    if n <= 0 || n > values.len() {
        Some(Seq::empty())
    } else {
        enc_cat(texts_bytes(values, n - 1), enc_text(0x04, values[n - 1]))
    }
}

/// The encoding of an attribute: a sequence under tag 0x30 of the
/// name and, under tag 0x31, the values.
pub open spec fn attribute_bytes(attribute: PartialAttributeView) -> Option<Seq<u8>> {
    enc_tlv(
        0x30,
        enc_cat(
            enc_text(0x04, attribute.name),
            enc_tlv(0x31, texts_bytes(attribute.values, attribute.values.len() as int)),
        ),
    )
}

/// The encodings of the first `n` of `attributes`, one after another.
pub open spec fn attributes_bytes(attributes: Seq<PartialAttributeView>, n: int) -> Option<
    Seq<u8>,
>
    decreases n,
{
    if n <= 0 || n > attributes.len() {
        Some(Seq::empty())
    } else {
        enc_cat(attributes_bytes(attributes, n - 1), attribute_bytes(attributes[n - 1]))
    }
}

/// Where some of the values have no encoding, more of them have none.
pub proof fn lemma_texts_bytes_none(values: Seq<Seq<char>>, k: int, n: int)
    requires
        0 <= k <= n <= values.len(),
        texts_bytes(values, k) is None,
    ensures
        texts_bytes(values, n) is None,
    decreases n - k,
{
    if k < n {
        lemma_texts_bytes_none(values, k, n - 1);
    }
}

/// Where some of the attributes have no encoding, more of them have
/// none.
pub proof fn lemma_attributes_bytes_none(attributes: Seq<PartialAttributeView>, k: int, n: int)
    requires
        0 <= k <= n <= attributes.len(),
        attributes_bytes(attributes, k) is None,
    ensures
        attributes_bytes(attributes, n) is None,
    decreases n - k,
{
    if k < n {
        lemma_attributes_bytes_none(attributes, k, n - 1);
    }
}

/// The encoding of a search result entry: the name and, in a sequence
/// under tag 0x30, the attributes.
pub open spec fn search_res_entry_bytes(
    id: u32,
    name: Seq<char>,
    attributes: Seq<PartialAttributeView>,
) -> Option<Seq<u8>> {
    message_bytes(
        id,
        0x64,
        enc_cat(
            enc_text(0x04, name),
            enc_tlv(0x30, attributes_bytes(attributes, attributes.len() as int)),
        ),
    )
}

/// Appends the encoding of one attribute.
fn enc_attribute(e: &mut Encoder, attribute: &PartialAttribute) -> (done: Result<(), Error>)
    requires
        old(e).wf(),
    ensures
        final(e).wf(),
        match attribute_bytes(attribute@) {
            Some(bytes) => {
                &&& done is Ok
                &&& final(e).bytes() == old(e).bytes() + bytes
                &&& final(e).open_seqs() == old(e).open_seqs()
            },
            None => done matches Err(kind) && kind == Error::Unsupported,
        },
{
    let ghost before = e.bytes();
    let ghost stack = e.open_seqs();
    let ghost values = strings_view(attribute.values@);
    e.start_seq(0x30)?;
    e.write_octet_string(attribute.name.as_str().as_bytes())?;
    let ghost head = e.bytes();
    e.start_seq(0x31)?;
    proof {
        assert(e.bytes() =~= head + seq![0x31u8, 0u8] + Seq::<u8>::empty());
    }
    let mut i: usize = 0;
    while i < attribute.values.len()
        invariant
            i <= attribute.values.len(),
            values == strings_view(attribute.values@),
            attribute_bytes(attribute@) == enc_tlv(
                0x30,
                enc_cat(
                    enc_text(0x04, attribute.name@),
                    enc_tlv(0x31, texts_bytes(values, values.len() as int)),
                ),
            ),
            e.wf(),
            e.open_seqs() == stack.push(before.len() as int).push(head.len() as int),
            texts_bytes(values, i as int) is Some,
            e.bytes() == head + seq![0x31u8, 0u8] + texts_bytes(values, i as int)->0,
        decreases attribute.values.len() - i,
    {
        let ghost sofar = texts_bytes(values, i as int)->0;
        proof {
            assert(values[i as int] == attribute.values@[i as int]@);
        }
        match e.write_octet_string(attribute.values[i].as_str().as_bytes()) {
            Ok(()) => {},
            Err(kind) => {
                proof {
                    assert(texts_bytes(values, i + 1) is None);
                    lemma_texts_bytes_none(values, i + 1, values.len() as int);
                }
                return Err(kind);
            },
        }
        proof {
            let item = enc_text(0x04, values[i as int])->0;
            assert(head + seq![0x31u8, 0u8] + sofar + item =~= head + seq![0x31u8, 0u8] + (sofar
                + item));
        }
        i += 1;
    }
    let ghost inner = texts_bytes(values, values.len() as int)->0;
    proof {
        assert(e.open_seqs().last() == head.len());
        assert(e.open_seqs().drop_last() =~= stack.push(before.len() as int));
        lemma_close_last(head, 0x31, inner);
    }
    e.end_seq()?;
    proof {
        let content = enc_text(0x04, attribute.name@)->0 + enc_tlv(0x31, Some(inner))->0;
        assert(e.bytes() =~= before + seq![0x30u8, 0u8] + content);
        assert(e.open_seqs().last() == before.len());
        assert(e.open_seqs().drop_last() =~= stack);
        lemma_close_last(before, 0x30, content);
    }
    e.end_seq()
}

/// Encodes a search result entry.
pub fn ldap_write_search_res_entry(id: u32, name: &str, attrs: &Vec<PartialAttribute>) -> (bytes:
    Result<Vec<u8>, Error>)
    ensures
        encoded(bytes, search_res_entry_bytes(id, name@, attributes_view(attrs@))),
{
    let ghost attributes = attributes_view(attrs@);
    let mut e = Encoder::new();
    e.start_seq(0x30)?;
    e.write_int(id)?;
    e.start_seq(0x64)?;
    e.write_octet_string(name.as_bytes())?;
    let ghost head = e.bytes();
    e.start_seq(0x30)?;
    proof {
        assert(e.bytes() =~= head + seq![0x30u8, 0u8] + Seq::<u8>::empty());
    }
    let ghost stack = e.open_seqs();
    let mut i: usize = 0;
    while i < attrs.len()
        invariant
            i <= attrs.len(),
            attributes == attributes_view(attrs@),
            e.wf(),
            e.open_seqs() == stack,
            attributes_bytes(attributes, i as int) is Some,
            e.bytes() == head + seq![0x30u8, 0u8] + attributes_bytes(attributes, i as int)->0,
        decreases attrs.len() - i,
    {
        let ghost sofar = attributes_bytes(attributes, i as int)->0;
        proof {
            assert(attributes[i as int] == attrs@[i as int]@);
        }
        match enc_attribute(&mut e, &attrs[i]) {
            Ok(()) => {},
            Err(kind) => {
                proof {
                    assert(attributes_bytes(attributes, i + 1) is None);
                    lemma_attributes_bytes_none(attributes, i + 1, attributes.len() as int);
                }
                return Err(kind);
            },
        }
        proof {
            let item = attribute_bytes(attributes[i as int])->0;
            assert(head + seq![0x30u8, 0u8] + sofar + item =~= head + seq![0x30u8, 0u8] + (sofar
                + item));
        }
        i += 1;
    }
    proof {
        let list = attributes_bytes(attributes, attributes.len() as int)->0;
        let first = 2 + enc_int(id)->0.len() as int;
        assert(head =~= seq![0x30u8, 0u8] + enc_int(id)->0 + seq![0x64u8, 0u8] + enc_text(
            0x04,
            name@,
        )->0);
        assert(stack =~= seq![0int, first, head.len() as int]);
        assert(stack.drop_last() =~= seq![0int, first]);
        reveal_with_fuel(close_all, 2);
        lemma_close_last(head, 0x30, list);
        match enc_tlv(0x30, Some(list)) {
            Some(element) => {
                let params = enc_text(0x04, name@)->0 + element;
                assert(head + element =~= seq![0x30u8, 0u8] + enc_int(id)->0 + seq![0x64u8, 0u8]
                    + params);
                lemma_close_message(id, 0x64, params);
            },
            None => {},
        }
    }
    e.encode()
}

/// A message has at least an id and an application tag.
pub proof fn lemma_message_has_id_and_tag(body: Seq<u8>)
    requires
        spec_read_message(body) is Some,
    ensures
        body.len() >= 3,
{
    reveal(spec_read_message);
    lemma_element_moves(body);
}

/// A message takes at least five bytes and no more than are there.
pub proof fn lemma_parse_takes(data: Seq<u8>)
    ensures
        spec_parse_message(data) matches Ok((_, n)) ==> 5 <= n <= data.len(),
{
    if spec_parse_message(data) is Ok {
        lemma_size_moves(data.skip(1));
        let (len, n) = spec_read_size(data.skip(1))->0;
        lemma_message_has_id_and_tag(data.subrange(1 + n, 1 + n + len));
    }
}

/// While fewer bytes are there than a message takes, decoding asks
/// for more data: it reports no error and no other message.
pub proof fn lemma_parse_prefix_needs_more(data: Seq<u8>, k: int)
    requires
        spec_parse_message(data) is Ok,
        0 <= k < spec_parse_message(data)->Ok_0.1,
    ensures
        spec_parse_message(data.subrange(0, k)) == Err::<(MessageView, int), Error>(
            Error::NeedMoreData,
        ),
{
    reveal(spec_read_size);
    let part = data.subrange(0, k);
    if k >= 4 && !length_cut_short(part) {
        if data[1] >= 0x80 {
            let count = (data[1] - 0x80) as int;
            assert(part.skip(1).subrange(1, 1 + count) =~= data.skip(1).subrange(1, 1 + count));
        }
        assert(spec_read_size(part.skip(1)) == spec_read_size(data.skip(1)));
    }
}

/// What follows a message does not change what the message decodes
/// to, nor the number of bytes that it takes.
pub proof fn lemma_parse_ignores_rest(data: Seq<u8>, rest: Seq<u8>)
    requires
        spec_parse_message(data) is Ok,
    ensures
        spec_parse_message(data + rest) == spec_parse_message(data),
{
    reveal(spec_read_size);
    let more = data + rest;
    if data[1] >= 0x80 {
        let count = (data[1] - 0x80) as int;
        assert(more.skip(1).subrange(1, 1 + count) =~= data.skip(1).subrange(1, 1 + count));
    }
    assert(spec_read_size(more.skip(1)) == spec_read_size(data.skip(1)));
    let (len, n) = spec_read_size(data.skip(1))->0;
    assert(more.subrange(1 + n, 1 + n + len) =~= data.subrange(1 + n, 1 + n + len));
}

/// The bytes that a message takes decode to it by themselves.
pub proof fn lemma_parse_cut(data: Seq<u8>)
    requires
        spec_parse_message(data) is Ok,
    ensures
        spec_parse_message(data.subrange(0, spec_parse_message(data)->Ok_0.1)) == spec_parse_message(
            data,
        ),
{
    reveal(spec_read_size);
    let total = spec_parse_message(data)->Ok_0.1;
    let message = data.subrange(0, total);
    let (declared, field) = spec_read_size(data.skip(1))->0;
    lemma_message_has_id_and_tag(data.subrange(1 + field, total));
    if data[1] >= 0x80 {
        let count = (data[1] - 0x80) as int;
        assert(message.skip(1).subrange(1, 1 + count) =~= data.skip(1).subrange(1, 1 + count));
    }
    assert(spec_read_size(message.skip(1)) == spec_read_size(
        data.skip(1),
    ));
    let (len, n) = spec_read_size(data.skip(1))->0;
    assert(message.subrange(1 + n, 1 + n + len) =~= data.subrange(1 + n, 1 + n + len));
}

} // verus!
