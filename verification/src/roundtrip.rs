//! Decoding undoes encoding: what the writers of the codec produce,
//! the readers take back for exactly what was written.

use vstd::prelude::*;
use vstd::utf8::{encode_utf8, encode_utf8_decode_utf8, encode_utf8_valid_utf8};
use crate::asn1::{
    be_value, enc_bool, enc_enum, enc_int, enc_tlv, int_content, lemma_int_content_minimal,
    spec_read_element, spec_read_size, spec_read_string, spec_read_uint, MAX_SHORT_LEN,
};
use crate::codec::{
    attribute_bytes, attributes_bytes, bind_request_bytes, bind_response_bytes, enc_text,
    filter_bytes, filters_bytes, message_bytes, search_params_bytes, search_request_bytes,
    search_res_done_bytes, search_res_entry_bytes, spec_parse_message, spec_read_attribute,
    spec_read_attributes, spec_read_bind, spec_read_bind_response, spec_read_filter,
    spec_read_filter_attr_desc, spec_read_filter_attr_val_assertion, spec_read_filters,
    spec_read_message, spec_read_params, spec_read_search, spec_read_search_numbers,
    spec_read_search_result, spec_read_search_result_done, spec_read_strings, texts_bytes,
};
use crate::error::Error;
use crate::ldap::{
    DerefAliases, FilterView, MessageParamsView, MessageView, MsgBindResponseView, MsgBindView,
    MsgSearchResultDone, MsgSearchResultView, MsgSearchView, PartialAttributeView, SearchScope,
};

verus! {

/// An element that was written in short form is read back as its tag
/// and its contents, whatever follows it.
pub proof fn lemma_read_element(tag: u8, content: Seq<u8>, rest: Seq<u8>)
    requires
        content.len() <= MAX_SHORT_LEN,
    ensures
        enc_tlv(tag, Some(content)) is Some,
        spec_read_element(enc_tlv(tag, Some(content))->0 + rest) == Some(
            (tag, content, 2 + content.len() as int),
        ),
        (enc_tlv(tag, Some(content))->0 + rest).skip(2 + content.len() as int) == rest,
        enc_tlv(tag, Some(content))->0.len() == 2 + content.len(),
{
    reveal(spec_read_element);
    reveal(spec_read_size);
    let s = enc_tlv(tag, Some(content))->0 + rest;
    assert(s[0] == tag);
    assert(s.skip(1)[0] == content.len() as u8);
    assert(s.subrange(2, 2 + content.len() as int) =~= content);
    assert(s.skip(2 + content.len() as int) =~= rest);
}

/// An integer that was written is read back.
pub proof fn lemma_read_int(val: u32, rest: Seq<u8>)
    requires
        enc_int(val) is Some,
    ensures
        spec_read_uint(enc_int(val)->0 + rest) == Some((val, enc_int(val)->0.len() as int)),
        (enc_int(val)->0 + rest).skip(enc_int(val)->0.len() as int) == rest,
        enc_int(val)->0.len() >= 3,
{
    reveal(spec_read_uint);
    lemma_int_content_minimal(val);
    lemma_read_element(0x02, int_content(val)->0, rest);
}

/// An enumerated value that was written is read back as an integer.
pub proof fn lemma_read_enum(val: u8, rest: Seq<u8>)
    ensures
        spec_read_uint(enc_enum(val) + rest) == Some((val as u32, 3int)),
        (enc_enum(val) + rest).skip(3) == rest,
{
    reveal(spec_read_uint);
    let content = seq![val];
    assert(enc_enum(val) =~= enc_tlv(0x0a, Some(content))->0);
    assert(content.drop_last() =~= Seq::<u8>::empty());
    reveal_with_fuel(be_value, 2);
    lemma_read_element(0x0a, content, rest);
}

/// A boolean that was written is read as an integer.
pub proof fn lemma_read_bool(val: bool, rest: Seq<u8>)
    ensures
        spec_read_uint(enc_bool(val) + rest) matches Some((_, n)) && n == 3,
        (enc_bool(val) + rest).skip(3) == rest,
{
    reveal(spec_read_uint);
    let content = seq![if val { 0xffu8 } else { 0u8 }];
    assert(enc_bool(val) =~= enc_tlv(0x01, Some(content))->0);
    assert(content.drop_last() =~= Seq::<u8>::empty());
    reveal_with_fuel(be_value, 2);
    lemma_read_element(0x01, content, rest);
}

/// A string that was written is read back.
pub proof fn lemma_read_text(tag: u8, text: Seq<char>, rest: Seq<u8>)
    requires
        enc_text(tag, text) is Some,
    ensures
        spec_read_string(enc_text(tag, text)->0 + rest) == Some(
            (text, enc_text(tag, text)->0.len() as int),
        ),
        (enc_text(tag, text)->0 + rest).skip(enc_text(tag, text)->0.len() as int) == rest,
        enc_text(tag, text)->0.len() >= 2,
{
    reveal(spec_read_string);
    encode_utf8_valid_utf8(text);
    encode_utf8_decode_utf8(text);
    lemma_read_element(tag, encode_utf8(text), rest);
}

/// A message that was written decodes to its id and to what its
/// parameters are read as, and takes all of the bytes.
pub proof fn lemma_parse_written(id: u32, tag: u8, params: Seq<u8>)
    requires
        message_bytes(id, tag, Some(params)) is Some,
        tag != 0x42,
    ensures
        spec_parse_message(message_bytes(id, tag, Some(params))->0) == match spec_read_params(
            tag,
            params,
        ) {
            Some(p) => Ok(
                (
                    MessageView { id, params: p },
                    message_bytes(id, tag, Some(params))->0.len() as int,
                ),
            ),
            None => Err(Error::Malformed),
        },
{
    reveal(spec_read_size);
    reveal(spec_read_message);
    let inner = enc_tlv(tag, Some(params))->0;
    let body = enc_int(id)->0 + inner;
    let data = message_bytes(id, tag, Some(params))->0;
    lemma_read_int(id, inner);
    lemma_read_element(0x30, body, Seq::<u8>::empty());
    assert(data + Seq::<u8>::empty() =~= data);
    assert(data.skip(1)[0] == body.len() as u8);
    assert(data.subrange(2, 2 + body.len() as int) =~= body);
    let s1 = body.skip(enc_int(id)->0.len() as int);
    assert(s1 == inner);
    assert(s1[0] == tag);
    let s2 = s1.skip(1);
    assert(s2[0] == params.len() as u8);
    assert(s2.skip(1) =~= params);
}

/// A bind request that was written decodes to a bind request of
/// version 3 with the name and the password that were written.
pub proof fn lemma_bind_request_round_trip(id: u32, name: Seq<char>, password: Seq<char>)
    requires
        bind_request_bytes(id, name, password) is Some,
    ensures
        spec_parse_message(bind_request_bytes(id, name, password)->0) == Ok::<
            (MessageView, int),
            Error,
        >(
            (
                MessageView {
                    id,
                    params: MessageParamsView::Bind(MsgBindView { version: 3, name, password }),
                },
                bind_request_bytes(id, name, password)->0.len() as int,
            ),
        ),
{
    reveal(spec_read_params);
    reveal(spec_read_bind);
    let v = enc_int(3)->0;
    let n = enc_text(0x04, name)->0;
    let w = enc_text(0x80, password)->0;
    let params = v + n + w;
    lemma_parse_written(id, 0x60, params);
    assert(params =~= v + (n + w));
    lemma_read_int(3, n + w);
    lemma_read_text(0x04, name, w);
    lemma_read_text(0x80, password, Seq::<u8>::empty());
    assert(w + Seq::<u8>::empty() =~= w);
}

/// A bind response that was written decodes to a bind response with
/// the result code 0 and two empty strings.
pub proof fn lemma_bind_response_round_trip(id: u32)
    requires
        bind_response_bytes(id) is Some,
    ensures
        spec_parse_message(bind_response_bytes(id)->0) == Ok::<(MessageView, int), Error>(
            (
                MessageView {
                    id,
                    params: MessageParamsView::BindResponse(
                        MsgBindResponseView { res: 0, matched_dn: Seq::empty(), diag: Seq::empty() },
                    ),
                },
                bind_response_bytes(id)->0.len() as int,
            ),
        ),
{
    reveal(spec_read_params);
    reveal(spec_read_bind_response);
    let nothing = Seq::<char>::empty();
    assert(encode_utf8(nothing) =~= Seq::<u8>::empty());
    let e = enc_enum(0);
    let s = enc_text(0x04, nothing)->0;
    let params = e + s + s;
    lemma_parse_written(id, 0x61, params);
    assert(params =~= e + (s + s));
    lemma_read_enum(0, s + s);
    lemma_read_text(0x04, nothing, s);
    lemma_read_text(0x04, nothing, Seq::<u8>::empty());
    assert(s + Seq::<u8>::empty() =~= s);
}

/// The end of a search result that was written decodes to the end of
/// a search result with the code that was written.
pub proof fn lemma_search_res_done_round_trip(id: u32, res: u32)
    requires
        search_res_done_bytes(id, res) is Some,
    ensures
        spec_parse_message(search_res_done_bytes(id, res)->0) == Ok::<(MessageView, int), Error>(
            (
                MessageView {
                    id,
                    params: MessageParamsView::MsgSearchResultDone(MsgSearchResultDone { res }),
                },
                search_res_done_bytes(id, res)->0.len() as int,
            ),
        ),
{
    reveal(spec_read_params);
    reveal(spec_read_search_result_done);
    let e = enc_enum(res as u8);
    let a = enc_text(0x04, "a1"@)->0;
    let b = enc_text(0x04, "a2"@)->0;
    let params = e + a + b;
    lemma_parse_written(id, 0x65, params);
    assert(params =~= e + (a + b));
    lemma_read_enum(res as u8, a + b);
}

/// Whether no empty filter stands in `f`. An empty filter is written
/// as no bytes at all, so nothing is there to read it back from.
pub open spec fn has_no_empty(f: FilterView) -> bool
    decreases f,
{
    match f {
        FilterView::Empty => false,
        FilterView::And { items } => forall|i: int|
            0 <= i < items.len() ==> has_no_empty(#[trigger] items[i]),
        _ => true,
    }
}

/// The encodings of the items of `items` from the `k`-th on, one
/// after another.
pub open spec fn filters_from(items: Seq<FilterView>, k: int) -> Seq<u8>
    decreases items.len() - k,
{
    if k < 0 || k >= items.len() {
        Seq::empty()
    } else {
        filter_bytes(items[k])->0 + filters_from(items, k + 1)
    }
}

/// Where the first `n` items have an encoding, each of them has one,
/// and so have fewer of them.
pub proof fn lemma_filters_each(items: Seq<FilterView>, n: int, i: int)
    requires
        0 <= i < n <= items.len(),
        filters_bytes(items, n) is Some,
    ensures
        filter_bytes(items[i]) is Some,
        filters_bytes(items, i) is Some,
    decreases n,
{
    if i < n - 1 {
        lemma_filters_each(items, n - 1, i);
    }
}

/// The encoding of all the items is that of the first `k` followed by
/// that of the others.
pub proof fn lemma_filters_join(items: Seq<FilterView>, k: int)
    requires
        0 <= k <= items.len(),
        filters_bytes(items, items.len() as int) is Some,
    ensures
        filters_bytes(items, k) is Some,
        filters_bytes(items, k)->0 + filters_from(items, k) == filters_bytes(
            items,
            items.len() as int,
        )->0,
    decreases items.len() - k,
{
    if k < items.len() {
        lemma_filters_each(items, items.len() as int, k);
        lemma_filters_join(items, k + 1);
        let head = filters_bytes(items, k)->0;
        let item = filter_bytes(items[k])->0;
        assert(head + (item + filters_from(items, k + 1)) =~= (head + item) + filters_from(
            items,
            k + 1,
        ));
    } else {
        assert(filters_bytes(items, k)->0 + filters_from(items, k) =~= filters_bytes(items, k)->0);
    }
}

/// A filter that was written is read back, whatever follows it.
pub proof fn lemma_filter_round_trip(f: FilterView, rest: Seq<u8>)
    requires
        filter_bytes(f) is Some,
        has_no_empty(f),
    ensures
        spec_read_filter(filter_bytes(f)->0 + rest) == Some((f, filter_bytes(f)->0.len() as int)),
        filter_bytes(f)->0.len() >= 2,
        (filter_bytes(f)->0 + rest).skip(filter_bytes(f)->0.len() as int) == rest,
    decreases f, 0int,
{
    reveal(spec_read_size);
    reveal(spec_read_filter_attr_val_assertion);
    reveal(spec_read_filter_attr_desc);
    let bytes = filter_bytes(f)->0;
    let s = bytes + rest;
    assert(s.skip(bytes.len() as int) =~= rest);
    match f {
        FilterView::Empty => {},
        FilterView::Present { name } => {
            let content = encode_utf8(name);
            encode_utf8_valid_utf8(name);
            encode_utf8_decode_utf8(name);
            assert(s[0] == 0x87u8);
            assert(s.skip(1)[0] == content.len() as u8);
            assert(s.skip(1).subrange(1, 1 + content.len() as int) =~= content);
        },
        FilterView::EqualityMatch { name, value } => {
            let n = enc_text(0x04, name)->0;
            let v = enc_text(0x04, value)->0;
            assert(s[0] == 0xa3u8);
            assert(s.skip(1)[0] == (n + v).len() as u8);
            assert(s.skip(1).skip(1) =~= n + (v + rest));
            lemma_read_text(0x04, name, v + rest);
            lemma_read_text(0x04, value, rest);
        },
        FilterView::And { items } => {
            let content = filters_bytes(items, items.len() as int)->0;
            lemma_filters_join(items, 0);
            assert(filters_from(items, 0) =~= content);
            lemma_filters_round_trip(items, 0);
            assert(items.skip(0) =~= items);
            assert(s[0] == 0xa0u8);
            assert(s.skip(1)[0] == content.len() as u8);
            assert(s.skip(1).subrange(1, 1 + content.len() as int) =~= content);
        },
    }
}

/// The items of a conjunction that were written are read back, from
/// any of them on.
pub proof fn lemma_filters_round_trip(items: Seq<FilterView>, k: int)
    requires
        0 <= k <= items.len(),
        filters_bytes(items, items.len() as int) is Some,
        forall|i: int| 0 <= i < items.len() ==> has_no_empty(#[trigger] items[i]),
    ensures
        spec_read_filters(filters_from(items, k)) == Some(items.skip(k)),
    decreases items, items.len() - k,
{
    if k < items.len() {
        lemma_filters_each(items, items.len() as int, k);
        lemma_filter_round_trip(items[k], filters_from(items, k + 1));
        lemma_filters_round_trip(items, k + 1);
        assert(seq![items[k]] + items.skip(k + 1) =~= items.skip(k));
    } else {
        assert(items.skip(k) =~= Seq::<FilterView>::empty());
    }
}

/// A search request that was written decodes to the search request
/// that was written, if no empty filter stands in its filter.
pub proof fn lemma_search_request_round_trip(id: u32, msg: MsgSearchView)
    requires
        search_request_bytes(id, msg) is Some,
        has_no_empty(msg.filter),
    ensures
        spec_parse_message(search_request_bytes(id, msg)->0) == Ok::<(MessageView, int), Error>(
            (
                MessageView { id, params: MessageParamsView::Search(msg) },
                search_request_bytes(id, msg)->0.len() as int,
            ),
        ),
{
    reveal(spec_read_params);
    let params = search_params_bytes(msg)->0;
    lemma_parse_written(id, 0x63, params);
    lemma_search_params_round_trip(msg);
}

/// The numbers of a search request that were written are read back,
/// whatever follows them.
pub proof fn lemma_search_numbers_round_trip(
    scope: u8,
    deref: u8,
    size_limit: u32,
    time_limit: u32,
    rest: Seq<u8>,
)
    requires
        enc_int(size_limit) is Some,
        enc_int(time_limit) is Some,
    ensures
        ({
            let written = enc_enum(scope) + enc_enum(deref) + enc_int(size_limit)->0 + enc_int(
                time_limit,
            )->0 + enc_bool(false);
            &&& spec_read_search_numbers(written + rest) == Some(
                ((scope as u32, deref as u32, size_limit, time_limit), written.len() as int),
            )
            &&& (written + rest).skip(written.len() as int) == rest
        }),
{
    reveal(spec_read_search_numbers);
    let e1 = enc_enum(scope);
    let e2 = enc_enum(deref);
    let l1 = enc_int(size_limit)->0;
    let l2 = enc_int(time_limit)->0;
    let b = enc_bool(false);
    let written = e1 + e2 + l1 + l2 + b;
    let r4 = b + rest;
    let r3 = l2 + r4;
    let r2 = l1 + r3;
    let r1 = e2 + r2;
    let s = e1 + r1;
    assert(written + rest =~= s);
    assert(s.skip(written.len() as int) =~= rest);
    lemma_read_enum(scope, r1);
    lemma_read_enum(deref, r2);
    lemma_read_int(size_limit, r3);
    lemma_read_int(time_limit, r4);
    lemma_read_bool(false, rest);
    assert(s.skip(3) == r1);
    assert(r1.skip(3) == r2);
    assert(r2.skip(l1.len() as int) == r3);
    assert(r3.skip(l2.len() as int) == r4);
}

/// The parameters of a search request that were written are read
/// back, if no empty filter stands in the filter.
pub proof fn lemma_search_params_round_trip(msg: MsgSearchView)
    requires
        search_params_bytes(msg) is Some,
        has_no_empty(msg.filter),
    ensures
        spec_read_search(search_params_bytes(msg)->0) == Some(msg),
{
    reveal(spec_read_search);
    let params = search_params_bytes(msg)->0;
    let t = enc_text(0x04, msg.base_object)->0;
    let numbers = enc_enum(msg.scope.spec_code()) + enc_enum(msg.deref.spec_code()) + enc_int(
        msg.size_limit,
    )->0 + enc_int(msg.time_limit)->0 + enc_bool(false);
    let f = filter_bytes(msg.filter)->0;
    assert(params =~= t + (numbers + f));
    lemma_read_text(0x04, msg.base_object, numbers + f);
    lemma_search_numbers_round_trip(
        msg.scope.spec_code(),
        msg.deref.spec_code(),
        msg.size_limit,
        msg.time_limit,
        f,
    );
    lemma_filter_round_trip(msg.filter, Seq::<u8>::empty());
    assert(f + Seq::<u8>::empty() =~= f);
    assert(SearchScope::spec_try_from(msg.scope.spec_code() as u32) == Some(msg.scope));
    assert(DerefAliases::spec_try_from(msg.deref.spec_code() as u32) == Some(msg.deref));
}

/// The encodings of the values of `values` from the `k`-th on, one
/// after another.
pub open spec fn texts_from(values: Seq<Seq<char>>, k: int) -> Seq<u8>
    decreases values.len() - k,
{
    if k < 0 || k >= values.len() {
        Seq::empty()
    } else {
        enc_text(0x04, values[k])->0 + texts_from(values, k + 1)
    }
}

/// Where the first `n` values have an encoding, each of them has one,
/// and so have fewer of them.
pub proof fn lemma_texts_each(values: Seq<Seq<char>>, n: int, i: int)
    requires
        0 <= i < n <= values.len(),
        texts_bytes(values, n) is Some,
    ensures
        enc_text(0x04, values[i]) is Some,
        texts_bytes(values, i) is Some,
    decreases n,
{
    if i < n - 1 {
        lemma_texts_each(values, n - 1, i);
    }
}

/// The encoding of all the values is that of the first `k` followed
/// by that of the others.
pub proof fn lemma_texts_join(values: Seq<Seq<char>>, k: int)
    requires
        0 <= k <= values.len(),
        texts_bytes(values, values.len() as int) is Some,
    ensures
        texts_bytes(values, k) is Some,
        texts_bytes(values, k)->0 + texts_from(values, k) == texts_bytes(
            values,
            values.len() as int,
        )->0,
    decreases values.len() - k,
{
    if k < values.len() {
        lemma_texts_each(values, values.len() as int, k);
        lemma_texts_join(values, k + 1);
        let head = texts_bytes(values, k)->0;
        let item = enc_text(0x04, values[k])->0;
        assert(head + (item + texts_from(values, k + 1)) =~= (head + item) + texts_from(
            values,
            k + 1,
        ));
    } else {
        assert(texts_bytes(values, k)->0 + texts_from(values, k) =~= texts_bytes(values, k)->0);
    }
}

/// The values of an attribute that were written are read back, from
/// any of them on.
pub proof fn lemma_texts_round_trip(values: Seq<Seq<char>>, k: int)
    requires
        0 <= k <= values.len(),
        texts_bytes(values, values.len() as int) is Some,
    ensures
        spec_read_strings(texts_from(values, k)) == Some(values.skip(k)),
    decreases values.len() - k,
{
    if k < values.len() {
        let first = enc_text(0x04, values[k])->0;
        let others = texts_from(values, k + 1);
        let s = texts_from(values, k);
        lemma_texts_each(values, values.len() as int, k);
        lemma_read_text(0x04, values[k], others);
        lemma_texts_round_trip(values, k + 1);
        assert(s == first + others);
        assert(spec_read_string(s) == Some((values[k], first.len() as int)));
        assert(s.skip(first.len() as int) == others);
        assert(s.len() >= first.len() >= 2);
        assert(spec_read_strings(others) == Some(values.skip(k + 1)));
        assert(seq![values[k]] + values.skip(k + 1) =~= values.skip(k));
    } else {
        assert(values.skip(k) =~= Seq::<Seq<char>>::empty());
    }
}

/// An attribute that was written is read back, whatever follows it.
pub proof fn lemma_attribute_round_trip(attribute: PartialAttributeView, rest: Seq<u8>)
    requires
        attribute_bytes(attribute) is Some,
    ensures
        spec_read_attribute(attribute_bytes(attribute)->0 + rest) == Some(
            (attribute, attribute_bytes(attribute)->0.len() as int),
        ),
        attribute_bytes(attribute)->0.len() >= 2,
        (attribute_bytes(attribute)->0 + rest).skip(attribute_bytes(attribute)->0.len() as int)
            == rest,
{
    reveal(spec_read_size);
    reveal(spec_read_attribute);
    let values = attribute.values;
    let inner = texts_bytes(values, values.len() as int)->0;
    let name = enc_text(0x04, attribute.name)->0;
    let list = enc_tlv(0x31, Some(inner))->0;
    let bytes = attribute_bytes(attribute)->0;
    let s = bytes + rest;
    assert(s.skip(bytes.len() as int) =~= rest);
    assert(s[0] == 0x30u8);
    let s1 = s.skip(1);
    assert(s1[0] == (name + list).len() as u8);
    let s2 = s1.skip(1);
    assert(s2 =~= name + (list + rest));
    lemma_read_text(0x04, attribute.name, list + rest);
    lemma_read_element(0x31, inner, rest);
    lemma_texts_join(values, 0);
    assert(texts_from(values, 0) =~= inner);
    lemma_texts_round_trip(values, 0);
    assert(values.skip(0) =~= values);
}

/// The encodings of the attributes of `attributes` from the `k`-th
/// on, one after another.
pub open spec fn attributes_from(attributes: Seq<PartialAttributeView>, k: int) -> Seq<u8>
    decreases attributes.len() - k,
{
    if k < 0 || k >= attributes.len() {
        Seq::empty()
    } else {
        attribute_bytes(attributes[k])->0 + attributes_from(attributes, k + 1)
    }
}

/// Where the first `n` attributes have an encoding, each of them has
/// one, and so have fewer of them.
pub proof fn lemma_attributes_each(attributes: Seq<PartialAttributeView>, n: int, i: int)
    requires
        0 <= i < n <= attributes.len(),
        attributes_bytes(attributes, n) is Some,
    ensures
        attribute_bytes(attributes[i]) is Some,
        attributes_bytes(attributes, i) is Some,
    decreases n,
{
    if i < n - 1 {
        lemma_attributes_each(attributes, n - 1, i);
    }
}

/// The encoding of all the attributes is that of the first `k`
/// followed by that of the others.
pub proof fn lemma_attributes_join(attributes: Seq<PartialAttributeView>, k: int)
    requires
        0 <= k <= attributes.len(),
        attributes_bytes(attributes, attributes.len() as int) is Some,
    ensures
        attributes_bytes(attributes, k) is Some,
        attributes_bytes(attributes, k)->0 + attributes_from(attributes, k) == attributes_bytes(
            attributes,
            attributes.len() as int,
        )->0,
    decreases attributes.len() - k,
{
    if k < attributes.len() {
        lemma_attributes_each(attributes, attributes.len() as int, k);
        lemma_attributes_join(attributes, k + 1);
        let head = attributes_bytes(attributes, k)->0;
        let item = attribute_bytes(attributes[k])->0;
        assert(head + (item + attributes_from(attributes, k + 1)) =~= (head + item)
            + attributes_from(attributes, k + 1));
    } else {
        assert(attributes_bytes(attributes, k)->0 + attributes_from(attributes, k)
            =~= attributes_bytes(attributes, k)->0);
    }
}

/// The attributes of an entry that were written are read back, from
/// any of them on.
pub proof fn lemma_attributes_round_trip(attributes: Seq<PartialAttributeView>, k: int)
    requires
        0 <= k <= attributes.len(),
        attributes_bytes(attributes, attributes.len() as int) is Some,
    ensures
        spec_read_attributes(attributes_from(attributes, k)) == Some(attributes.skip(k)),
    decreases attributes.len() - k,
{
    if k < attributes.len() {
        let first = attribute_bytes(attributes[k])->0;
        let others = attributes_from(attributes, k + 1);
        let s = attributes_from(attributes, k);
        lemma_attributes_each(attributes, attributes.len() as int, k);
        lemma_attribute_round_trip(attributes[k], others);
        lemma_attributes_round_trip(attributes, k + 1);
        assert(s == first + others);
        assert(spec_read_attribute(s) == Some((attributes[k], first.len() as int)));
        assert(s.skip(first.len() as int) == others);
        assert(s.len() >= first.len() >= 2);
        assert(spec_read_attributes(others) == Some(attributes.skip(k + 1)));
        assert(seq![attributes[k]] + attributes.skip(k + 1) =~= attributes.skip(k));
    } else {
        assert(attributes.skip(k) =~= Seq::<PartialAttributeView>::empty());
    }
}

/// A search result entry that was written decodes to the entry that
/// was written.
pub proof fn lemma_search_res_entry_round_trip(
    id: u32,
    name: Seq<char>,
    attributes: Seq<PartialAttributeView>,
)
    requires
        search_res_entry_bytes(id, name, attributes) is Some,
    ensures
        spec_parse_message(search_res_entry_bytes(id, name, attributes)->0) == Ok::<
            (MessageView, int),
            Error,
        >(
            (
                MessageView {
                    id,
                    params: MessageParamsView::SearchResult(
                        MsgSearchResultView { name, values: attributes },
                    ),
                },
                search_res_entry_bytes(id, name, attributes)->0.len() as int,
            ),
        ),
{
    reveal(spec_read_params);
    reveal(spec_read_search_result);
    reveal(spec_read_size);
    let inner = attributes_bytes(attributes, attributes.len() as int)->0;
    let n = enc_text(0x04, name)->0;
    let list = enc_tlv(0x30, Some(inner))->0;
    let params = n + list;
    lemma_parse_written(id, 0x64, params);
    lemma_read_text(0x04, name, list);
    assert(list[0] == 0x30u8);
    assert(list.skip(1)[0] == inner.len() as u8);
    assert(list.skip(1).skip(1) =~= inner);
    lemma_attributes_join(attributes, 0);
    assert(attributes_from(attributes, 0) =~= inner);
    lemma_attributes_round_trip(attributes, 0);
    assert(attributes.skip(0) =~= attributes);
}

} // verus!
