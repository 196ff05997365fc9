//! The BER primitives: readers over a byte cursor, writers onto a byte
//! buffer, and an encoder that patches the lengths of nested sequences.
//!
//! Lengths are read in short and long form. They are written in short
//! form only: contents of more than 127 bytes are refused.

use vstd::prelude::*;
use vstd::utf8::*;
use vstd::slice::slice_subrange;
use byteorder::ReadBytesExt;
use byteorder::WriteBytesExt;
use crate::error::Error;

verus! {

/// The longest contents that one length byte can declare.
pub const MAX_SHORT_LEN: usize = 127;

/// The number that `bytes` spell, most significant byte first.
pub open spec fn be_value(bytes: Seq<u8>) -> nat
    decreases bytes.len(),
{
    if bytes.len() == 0 {
        0
    } else {
        be_value(bytes.drop_last()) * 256 + bytes.last() as nat
    }
}

/// What reading a tag from the front of `s` gives: the byte and the
/// number of bytes read.
pub open spec fn spec_read_tag(s: Seq<u8>) -> Option<(u8, int)> {
    if s.len() >= 1 {
        Some((s[0], 1))
    } else {
        None
    }
}

/// What reading a length from the front of `s` gives. A first byte
/// below 0x80 is the length itself; otherwise its low seven bits count
/// the bytes that follow and spell the length. A length that is cut
/// short, or that no `usize` holds, is no length.
#[verifier::opaque]
pub open spec fn spec_read_size(s: Seq<u8>) -> Option<(usize, int)> {
    if s.len() == 0 {
        None
    } else if s[0] < 0x80 {
        Some((s[0] as usize, 1))
    } else {
        let count = (s[0] - 0x80) as int;
        if s.len() < 1 + count || be_value(s.subrange(1, 1 + count)) > usize::MAX {
            None
        } else {
            Some((be_value(s.subrange(1, 1 + count)) as usize, 1 + count))
        }
    }
}

/// What reading a tag and a length from the front of `s` gives, when
/// the declared contents are all there: the tag, the contents and the
/// number of bytes of the whole element.
#[verifier::opaque]
pub open spec fn spec_read_element(s: Seq<u8>) -> Option<(u8, Seq<u8>, int)> {
    match spec_read_tag(s) {
        None => None,
        Some((tag, n1)) => match spec_read_size(s.skip(n1)) {
            None => None,
            Some((size, n2)) => if s.len() < n1 + n2 + size {
                None
            } else {
                Some((tag, s.subrange(n1 + n2, n1 + n2 + size), n1 + n2 + size))
            },
        },
    }
}

/// What reading an unsigned integer from the front of `s` gives: an
/// element under any tag whose contents spell a number that a `u32`
/// holds.
#[verifier::opaque]
pub open spec fn spec_read_uint(s: Seq<u8>) -> Option<(u32, int)> {
    match spec_read_element(s) {
        Some((_, content, n)) if be_value(content) <= u32::MAX => Some((be_value(content) as u32, n)),
        _ => None,
    }
}

/// What reading a string from the front of `s` gives: an element under
/// any tag whose contents are valid UTF-8.
#[verifier::opaque]
pub open spec fn spec_read_string(s: Seq<u8>) -> Option<(Seq<char>, int)> {
    match spec_read_element(s) {
        Some((_, content, n)) if valid_utf8(content) => Some((decode_utf8(content), n)),
        _ => None,
    }
}

/// A length takes at least its first byte and no more than is there.
pub proof fn lemma_size_moves(s: Seq<u8>)
    ensures
        spec_read_size(s) matches Some((_, n)) ==> 1 <= n <= s.len(),
{
    reveal(spec_read_size);
}

/// An element takes at least its tag and its length, then its
/// contents, and no more than is there.
pub proof fn lemma_element_moves(s: Seq<u8>)
    ensures
        spec_read_element(s) matches Some((_, content, n)) ==> 2 + content.len() <= n <= s.len(),
        spec_read_uint(s) matches Some((_, n)) ==> 2 <= n <= s.len(),
        spec_read_string(s) matches Some((_, n)) ==> 2 <= n <= s.len(),
{
    reveal(spec_read_size);
    reveal(spec_read_element);
    reveal(spec_read_uint);
    reveal(spec_read_string);
}

/// Appending a byte multiplies the number by 256 and adds the byte.
pub proof fn lemma_be_value_push(bytes: Seq<u8>, byte: u8)
    ensures
        be_value(bytes.push(byte)) == be_value(bytes) * 256 + byte,
{
    assert(bytes.push(byte).drop_last() =~= bytes);
}

/// A prefix spells no more than the whole.
pub proof fn lemma_be_value_prefix(bytes: Seq<u8>, k: int)
    requires
        0 <= k <= bytes.len(),
    ensures
        be_value(bytes.subrange(0, k)) <= be_value(bytes),
    decreases bytes.len() - k,
{
    if k < bytes.len() {
        lemma_be_value_prefix(bytes.drop_last(), k);
        assert(bytes.drop_last().subrange(0, k) =~= bytes.subrange(0, k));
    } else {
        assert(bytes.subrange(0, k) =~= bytes);
    }
}

/// 256 to the power of `n`.
pub open spec fn pow256(n: nat) -> nat
    decreases n,
{
    if n == 0 {
        1
    } else {
        256 * pow256((n - 1) as nat)
    }
}

/// As many bytes as `n` spell a number below 256 to the power of `n`.
pub proof fn lemma_be_value_bound(bytes: Seq<u8>)
    ensures
        be_value(bytes) < pow256(bytes.len()),
    decreases bytes.len(),
{
    if bytes.len() > 0 {
        lemma_be_value_bound(bytes.drop_last());
    }
}

/// What a length decodes to. A first byte below 0x80 is the length,
/// in one byte. A first byte of 0x80 and more announces as many
/// length bytes as its low seven bits say; where they are all there
/// and are no more than four, or no more than eight on a machine with
/// 64-bit sizes, the length is the number that they spell, most
/// significant byte first, and takes one byte more than they are.
pub proof fn lemma_read_size_value(s: Seq<u8>)
    requires
        s.len() >= 1,
    ensures
        s[0] < 0x80 ==> spec_read_size(s) == Some((s[0] as usize, 1int)),
        ({
            let count = (s[0] - 0x80) as int;
            let digits = s.subrange(1, 1 + count);
            s[0] >= 0x80 && 1 + count <= s.len() && (count <= 4 || (count <= 8 && usize::MAX
                >= u64::MAX)) ==> be_value(digits) <= usize::MAX && spec_read_size(s) == Some(
                (be_value(digits) as usize, 1 + count),
            )
        }),
{
    reveal(spec_read_size);
    if s[0] >= 0x80 {
        let count = (s[0] - 0x80) as int;
        if 1 + count <= s.len() && count <= 8 {
            let digits = s.subrange(1, 1 + count);
            lemma_be_value_bound(digits);
            reveal_with_fuel(pow256, 9);
            assert(count == 0 || count == 1 || count == 2 || count == 3 || count == 4 || count == 5
                || count == 6 || count == 7 || count == 8);
            assert(pow256(4) == 0x1_0000_0000);
            assert(pow256(8) == 0x1_0000_0000_0000_0000);
            assert(count <= 4 ==> pow256(count as nat) <= pow256(4));
            assert(pow256(count as nat) <= pow256(8));
        }
    }
}

/// A position in a run of bytes.
pub struct Cursor<'a> {
    data: &'a [u8],
    pos: usize,
}

impl<'a> Cursor<'a> {
    #[verifier::type_invariant]
    spec fn inv(self) -> bool {
        self.pos <= self.data@.len()
    }

    /// All the bytes, read or not.
    pub closed spec fn data(&self) -> Seq<u8> {
        self.data@
    }

    /// The number of bytes read so far.
    pub closed spec fn pos(&self) -> nat {
        self.pos as nat
    }

    /// The bytes not yet read.
    pub open spec fn remaining(&self) -> Seq<u8> {
        self.data().skip(self.pos() as int)
    }

    /// A cursor at the start of `data`.
    pub fn new(data: &'a [u8]) -> (cursor: Self)
        ensures
            cursor.data() == data@,
            cursor.pos() == 0,
    {
        Cursor { data, pos: 0 }
    }

    /// The number of bytes read so far.
    pub fn position(&self) -> (pos: usize)
        ensures
            pos == self.pos(),
            pos <= self.data().len(),
    {
        proof {
            use_type_invariant(self);
        }
        self.pos
    }

    /// The number of bytes not yet read.
    pub fn left(&self) -> (left: usize)
        ensures
            left == self.remaining().len(),
            left == self.data().len() - self.pos(),
    {
        proof {
            use_type_invariant(self);
        }
        self.data.len() - self.pos
    }

    /// Moves back to `pos`, a position that was read past before.
    pub(crate) fn restore(&mut self, pos: usize)
        requires
            pos <= old(self).data().len(),
        ensures
            final(self).data() == old(self).data(),
            final(self).pos() == pos,
    {
        self.pos = pos;
    }

    /// Reads the next `size` bytes as they are.
    pub fn read_exact(&mut self, size: usize) -> (bytes: Result<&'a [u8], Error>)
        ensures
            reads(
                *old(self),
                *final(self),
                match bytes {
                    Ok(b) => Ok(b@),
                    Err(e) => Err(e),
                },
                if size <= old(self).remaining().len() {
                    Some((old(self).remaining().subrange(0, size as int), size as int))
                } else {
                    None
                },
            ),
    {
        proof {
            use_type_invariant(&*self);
        }
        let from = self.pos;
        if size > self.data.len() - from {
            return Err(Error::Malformed);
        }
        let bytes = slice_subrange(self.data, from, from + size);
        self.pos = from + size;
        proof {
            assert(bytes@ =~= old(self).remaining().subrange(0, size as int));
            lemma_moved(*old(self), *self, size as int);
        }
        Ok(bytes)
    }
}

/// How a read relates the cursor before and after it to the result:
/// where the bytes left spell a value, the read returns it and moves
/// past its bytes; where they do not, it returns `Malformed` and does
/// not move.
pub open spec fn reads<T>(
    before: Cursor,
    after: Cursor,
    result: Result<T, Error>,
    expected: Option<(T, int)>,
) -> bool {
    &&& after.data() == before.data()
    &&& after.pos() <= after.data().len()
    &&& match expected {
        Some((value, n)) => {
            &&& result == Ok::<T, Error>(value)
            &&& 0 <= n
            &&& after.pos() == before.pos() + n
            &&& after.remaining() == before.remaining().skip(n)
        },
        None => {
            &&& result == Err::<T, Error>(Error::Malformed)
            &&& after.pos() == before.pos()
            &&& after.remaining() == before.remaining()
        },
    }
}

/// Moving on by `n` bytes leaves what was left, less its first `n`.
pub proof fn lemma_moved(before: Cursor, after: Cursor, n: int)
    requires
        after.data() == before.data(),
        0 <= n,
        after.pos() == before.pos() + n,
        after.pos() <= after.data().len(),
    ensures
        after.remaining() == before.remaining().skip(n),
{
    assert(after.remaining() =~= before.remaining().skip(n));
}

/// `byteorder::ReadBytesExt::read_u8` on the bytes of `data` from
/// offset `pos` on. It returns the first of them, and nothing where
/// none is left: the crate reads exactly one byte from the reader, and
/// a slice as a reader hands out its bytes in order.
#[verifier::external_body]
fn read_u8_at(data: &[u8], pos: usize) -> (byte: Option<u8>)
    requires
        pos <= data@.len(),
    ensures
        byte == if pos < data@.len() {
            Some(data@[pos as int])
        } else {
            None::<u8>
        },
{
    let mut rest: &[u8] = &data[pos..];
    rest.read_u8().ok()
}

/// `std::str::from_utf8`: the string that `bytes` encode, and nothing
/// where they are not valid UTF-8.
#[verifier::external_body]
pub(crate) fn str_from_utf8(bytes: &[u8]) -> (text: Option<&str>)
    ensures
        match text {
            Some(t) => valid_utf8(bytes@) && t@ == decode_utf8(bytes@),
            None => !valid_utf8(bytes@),
        },
{
    std::str::from_utf8(bytes).ok()
}

/// Reads one byte, the tag of an element.
pub fn read_tag(cursor: &mut Cursor) -> (tag: Result<u8, Error>)
    ensures
        reads(*old(cursor), *final(cursor), tag, spec_read_tag(old(cursor).remaining())),
{
    proof {
        use_type_invariant(&*cursor);
        assert(cursor.data@.len() == vstd::slice::spec_slice_len(cursor.data));
    }
    match read_u8_at(cursor.data, cursor.pos) {
        Some(byte) => {
            cursor.pos = cursor.pos + 1;
            proof {
                lemma_moved(*old(cursor), *cursor, 1);
            }
            Ok(byte)
        },
        None => Err(Error::Malformed),
    }
}

/// Reads a length, in short or long form.
pub fn read_size(cursor: &mut Cursor) -> (size: Result<usize, Error>)
    ensures
        reads(*old(cursor), *final(cursor), size, spec_read_size(old(cursor).remaining())),
{
    proof {
        use_type_invariant(&*cursor);
        reveal(spec_read_size);
    }
    let start = cursor.pos;
    let len = cursor.data.len();
    let ghost s = cursor.remaining();
    let first = match read_u8_at(cursor.data, start) {
        Some(byte) => byte,
        None => {
            return Err(Error::Malformed);
        },
    };
    if first < 0x80 {
        cursor.pos = start + 1;
        proof {
            lemma_moved(*old(cursor), *cursor, 1);
        }
        return Ok(first as usize);
    }
    let count: usize = (first - 0x80) as usize;
    if count > len - start - 1 {
        return Err(Error::Malformed);
    }
    let ghost digits = s.subrange(1, 1 + count);
    let mut out: usize = 0;
    let mut i: usize = 0;
    while i < count
        invariant
            i <= count,
            start + 1 + count <= cursor.data@.len(),
            cursor.data@.len() == len,
            s.len() > 0 && s[0] == first && first >= 0x80 && count == first - 0x80,
            cursor.pos == start,
            *cursor == *old(cursor),
            s == cursor.data@.skip(start as int),
            digits == s.subrange(1, 1 + count),
            out == be_value(digits.subrange(0, i as int)),
        decreases count - i,
    {
        let byte = match read_u8_at(cursor.data, start + 1 + i) {
            Some(byte) => byte,
            None => {
                return Err(Error::Malformed);
            },
        };
        proof {
            reveal(spec_read_size);
            assert(digits.subrange(0, i + 1) =~= digits.subrange(0, i as int).push(byte));
            lemma_be_value_push(digits.subrange(0, i as int), byte);
            lemma_be_value_prefix(digits, i + 1);
        }
        let shifted = match out.checked_mul(256) {
            Some(v) => v,
            None => {
                return Err(Error::Malformed);
            },
        };
        out = match shifted.checked_add(byte as usize) {
            Some(v) => v,
            None => {
                return Err(Error::Malformed);
            },
        };
        i += 1;
    }
    proof {
        assert(digits.subrange(0, count as int) =~= digits);
    }
    cursor.pos = start + 1 + count;
    proof {
        lemma_moved(*old(cursor), *cursor, 1 + count);
    }
    Ok(out)
}

/// Reads a tag and a length and steps over the declared contents,
/// which it returns.
pub fn read_element<'a>(cursor: &mut Cursor<'a>) -> (element: Result<(u8, &'a [u8]), Error>)
    ensures
        reads(
            *old(cursor),
            *final(cursor),
            match element {
                Ok((tag, content)) => Ok((tag, content@)),
                Err(e) => Err(e),
            },
            match spec_read_element(old(cursor).remaining()) {
                Some((tag, content, n)) => Some(((tag, content), n)),
                None => None,
            },
        ),
{
    proof {
        use_type_invariant(&*cursor);
        reveal(spec_read_element);
        lemma_size_moves(cursor.remaining().skip(1));
    }
    let start = cursor.pos;
    let ghost s = cursor.remaining();
    let tag = match read_tag(cursor) {
        Ok(tag) => tag,
        Err(e) => {
            return Err(e);
        },
    };
    let size = match read_size(cursor) {
        Ok(size) => size,
        Err(e) => {
            cursor.pos = start;
            return Err(e);
        },
    };
    proof {
        use_type_invariant(&*cursor);
    }
    let from = cursor.pos;
    if size > cursor.data.len() - from {
        cursor.pos = start;
        return Err(Error::Malformed);
    }
    let content = slice_subrange(cursor.data, from, from + size);
    cursor.pos = from + size;
    proof {
        assert(content@ =~= s.subrange(from - start, from - start + size));
        lemma_moved(*old(cursor), *cursor, from - start + size);
    }
    Ok((tag, content))
}

/// The number that `content` spells, where a `u32` holds it.
fn uint_of(content: &[u8]) -> (value: Option<u32>)
    ensures
        value == if be_value(content@) <= u32::MAX {
            Some(be_value(content@) as u32)
        } else {
            None::<u32>
        },
{
    let mut out: u32 = 0;
    let mut i: usize = 0;
    while i < content.len()
        invariant
            i <= content@.len(),
            out == be_value(content@.subrange(0, i as int)),
        decreases content@.len() - i,
    {
        let byte = content[i];
        proof {
            assert(content@.subrange(0, i + 1) =~= content@.subrange(0, i as int).push(byte));
            lemma_be_value_push(content@.subrange(0, i as int), byte);
            lemma_be_value_prefix(content@, i + 1);
        }
        let shifted = match out.checked_mul(256) {
            Some(v) => v,
            None => {
                return None;
            },
        };
        out = match shifted.checked_add(byte as u32) {
            Some(v) => v,
            None => {
                return None;
            },
        };
        i += 1;
    }
    proof {
        assert(content@.subrange(0, content@.len() as int) =~= content@);
    }
    Some(out)
}

/// Reads an unsigned integer: an element whose contents spell the
/// number, most significant byte first.
pub fn read_uint(cursor: &mut Cursor) -> (value: Result<u32, Error>)
    ensures
        reads(*old(cursor), *final(cursor), value, spec_read_uint(old(cursor).remaining())),
{
    proof {
        use_type_invariant(&*cursor);
        reveal(spec_read_uint);
    }
    let start = cursor.pos;
    let (_, content) = match read_element(cursor) {
        Ok(element) => element,
        Err(e) => {
            return Err(e);
        },
    };
    match uint_of(content) {
        Some(value) => Ok(value),
        None => {
            cursor.pos = start;
            Err(Error::Malformed)
        },
    }
}

/// Reads a string: an element whose contents are its UTF-8 bytes.
pub fn read_string(cursor: &mut Cursor) -> (text: Result<String, Error>)
    ensures
        reads(
            *old(cursor),
            *final(cursor),
            match text {
                Ok(t) => Ok(t@),
                Err(e) => Err(e),
            },
            spec_read_string(old(cursor).remaining()),
        ),
{
    proof {
        use_type_invariant(&*cursor);
        reveal(spec_read_string);
    }
    let start = cursor.pos;
    let (_, content) = match read_element(cursor) {
        Ok(element) => element,
        Err(e) => {
            return Err(e);
        },
    };
    match str_from_utf8(content) {
        Some(text) => Ok(text.to_owned()),
        None => {
            cursor.pos = start;
            Err(Error::Malformed)
        },
    }
}

/// A tag, the length of the contents in one byte, and the contents;
/// nothing where the contents are missing or longer than 127 bytes.
pub open spec fn enc_tlv(tag: u8, content: Option<Seq<u8>>) -> Option<Seq<u8>> {
    match content {
        Some(c) if c.len() <= MAX_SHORT_LEN => Some(seq![tag, c.len() as u8] + c),
        _ => None,
    }
}

/// One encoding after another; nothing where either is missing.
pub open spec fn enc_cat(a: Option<Seq<u8>>, b: Option<Seq<u8>>) -> Option<Seq<u8>> {
    match (a, b) {
        (Some(x), Some(y)) => Some(x + y),
        _ => None,
    }
}

/// The contents of an integer element: the shortest run of bytes that
/// spells `val` with the top bit of the first byte clear. Numbers of
/// 2^24 and more have none.
pub open spec fn int_content(val: u32) -> Option<Seq<u8>> {
    if val < 0x80 {
        Some(seq![val as u8])
    } else if val < 0x8000 {
        Some(seq![(val / 0x100) as u8, (val % 0x100) as u8])
    } else if val < 0x80_0000 {
        Some(seq![(val / 0x1_0000) as u8, (val / 0x100 % 0x100) as u8, (val % 0x100) as u8])
    } else if val < 0x100_0000 {
        Some(
            seq![
                0u8,
                (val / 0x1_0000) as u8,
                (val / 0x100 % 0x100) as u8,
                (val % 0x100) as u8,
            ],
        )
    } else {
        None
    }
}

/// An integer element: tag 2, the length, the contents.
pub open spec fn enc_int(val: u32) -> Option<Seq<u8>> {
    enc_tlv(0x02, int_content(val))
}

/// An enumerated element: tag 10, length 1, the value.
pub open spec fn enc_enum(val: u8) -> Seq<u8> {
    seq![0x0au8, 1u8, val]
}

/// A boolean element: tag 1, length 1, then 0xff for true and 0 for
/// false.
pub open spec fn enc_bool(val: bool) -> Seq<u8> {
    seq![0x01u8, 1u8, if val { 0xffu8 } else { 0u8 }]
}

/// The contents of an integer spell the number, do not look negative,
/// and are as short as that allows.
pub proof fn lemma_int_content_minimal(val: u32)
    requires
        val < 0x100_0000,
    ensures
        int_content(val) matches Some(c) && {
            &&& 1 <= c.len() <= 4
            &&& be_value(c) == val
            &&& c[0] < 0x80
            &&& c.len() > 1 ==> !(c[0] == 0 && c[1] < 0x80)
        },
{
    let c = int_content(val)->0;
    reveal_with_fuel(be_value, 5);
    if val < 0x80 {
        assert(c.drop_last() =~= Seq::<u8>::empty());
    } else if val < 0x8000 {
        assert(c.drop_last() =~= seq![c[0]]);
        assert(c.drop_last().drop_last() =~= Seq::<u8>::empty());
    } else if val < 0x80_0000 {
        assert(c.drop_last() =~= seq![c[0], c[1]]);
        assert(c.drop_last().drop_last() =~= seq![c[0]]);
        assert(c.drop_last().drop_last().drop_last() =~= Seq::<u8>::empty());
    } else {
        assert(c.drop_last() =~= seq![c[0], c[1], c[2]]);
        assert(c.drop_last().drop_last() =~= seq![c[0], c[1]]);
        assert(c.drop_last().drop_last().drop_last() =~= seq![c[0]]);
        assert(c.drop_last().drop_last().drop_last().drop_last() =~= Seq::<u8>::empty());
    }
}

/// How a write relates the buffer before and after it to the result:
/// where the value has an encoding, the write appends it; where it has
/// none, the write returns `Unsupported` and appends nothing.
pub open spec fn writes(
    before: Seq<u8>,
    after: Seq<u8>,
    result: Result<(), Error>,
    expected: Option<Seq<u8>>,
) -> bool {
    match expected {
        Some(bytes) => result is Ok && after == before + bytes,
        None => result == Err::<(), Error>(Error::Unsupported) && after == before,
    }
}

/// `byteorder::WriteBytesExt::write_u8` on a byte vector. It appends
/// the byte and succeeds: the crate writes the one byte with
/// `write_all`, which on a vector appends and does not fail.
#[verifier::external_body]
fn write_u8_to(buf: &mut Vec<u8>, byte: u8) -> (done: Result<(), Error>)
    ensures
        done is Ok,
        final(buf)@ == old(buf)@.push(byte),
{
    match buf.write_u8(byte) {
        Ok(()) => Ok(()),
        Err(_) => Err(Error::ConnectionClosed),
    }
}

/// Appends the bytes of `val` to `buf`.
fn write_bytes(buf: &mut Vec<u8>, val: &[u8]) -> (done: Result<(), Error>)
    ensures
        done is Ok,
        final(buf)@ == old(buf)@ + val@,
{
    let mut i: usize = 0;
    while i < val.len()
        invariant
            i <= val@.len(),
            buf@ == old(buf)@ + val@.subrange(0, i as int),
        decreases val@.len() - i,
    {
        write_u8_to(buf, val[i])?;
        proof {
            assert(val@.subrange(0, i + 1) =~= val@.subrange(0, i as int).push(val@[i as int]));
        }
        i += 1;
    }
    proof {
        assert(val@.subrange(0, val@.len() as int) =~= val@);
    }
    Ok(())
}

/// Appends a tag.
pub fn write_tag(buf: &mut Vec<u8>, tag: u8) -> (done: Result<(), Error>)
    ensures
        writes(old(buf)@, final(buf)@, done, Some(seq![tag])),
{
    write_u8_to(buf, tag)?;
    proof {
        assert(buf@ =~= old(buf)@ + seq![tag]);
    }
    Ok(())
}

/// Appends a length in short form. Lengths above 127 have none.
pub fn asn1_write_len(buf: &mut Vec<u8>, len: u8) -> (done: Result<(), Error>)
    ensures
        writes(
            old(buf)@,
            final(buf)@,
            done,
            if len <= MAX_SHORT_LEN {
                Some(seq![len])
            } else {
                None
            },
        ),
{
    if len > 127 {
        return Err(Error::Unsupported);
    }
    write_u8_to(buf, len)?;
    proof {
        assert(buf@ =~= old(buf)@ + seq![len]);
    }
    Ok(())
}

/// Appends an enumerated value.
pub fn write_enum(buf: &mut Vec<u8>, val: u8) -> (done: Result<(), Error>)
    ensures
        writes(old(buf)@, final(buf)@, done, Some(enc_enum(val))),
{
    write_tag(buf, 0xa)?;
    asn1_write_len(buf, 1)?;
    write_u8_to(buf, val)?;
    proof {
        assert(buf@ =~= old(buf)@ + enc_enum(val));
    }
    Ok(())
}

/// Appends a boolean.
pub fn write_bool(buf: &mut Vec<u8>, val: bool) -> (done: Result<(), Error>)
    ensures
        writes(old(buf)@, final(buf)@, done, Some(enc_bool(val))),
{
    write_tag(buf, 0x1)?;
    asn1_write_len(buf, 1)?;
    write_u8_to(buf, if val { 0xff } else { 0 })?;
    proof {
        assert(buf@ =~= old(buf)@ + enc_bool(val));
    }
    Ok(())
}

/// Appends `val` as the contents of an element under `tag`. Contents
/// of more than 127 bytes are refused.
pub fn write_octet_string_with_tag(buf: &mut Vec<u8>, tag: u8, val: &[u8]) -> (done: Result<
    (),
    Error,
>)
    ensures
        writes(old(buf)@, final(buf)@, done, enc_tlv(tag, Some(val@))),
{
    if val.len() > MAX_SHORT_LEN {
        return Err(Error::Unsupported);
    }
    write_tag(buf, tag)?;
    asn1_write_len(buf, val.len() as u8)?;
    write_bytes(buf, val)?;
    proof {
        assert(buf@ =~= old(buf)@ + (seq![tag, val@.len() as u8] + val@));
    }
    Ok(())
}

/// Appends `val` as an octet string, under tag 4.
pub fn write_octet_string(buf: &mut Vec<u8>, val: &[u8]) -> (done: Result<(), Error>)
    ensures
        writes(old(buf)@, final(buf)@, done, enc_tlv(0x04, Some(val@))),
{
    write_octet_string_with_tag(buf, 0x4, val)
}

/// Appends an unsigned integer in the fewest bytes that keep the top
/// bit clear. Numbers of 2^24 and more are refused.
pub fn write_int(buf: &mut Vec<u8>, val: u32) -> (done: Result<(), Error>)
    ensures
        writes(old(buf)@, final(buf)@, done, enc_int(val)),
{
    if val >= 0x100_0000 {
        return Err(Error::Unsupported);
    }
    write_tag(buf, 0x2)?;
    if val < 0x80 {
        asn1_write_len(buf, 1)?;
        write_u8_to(buf, val as u8)?;
    } else if val < 0x8000 {
        asn1_write_len(buf, 2)?;
        write_u8_to(buf, (val / 0x100) as u8)?;
        write_u8_to(buf, (val % 0x100) as u8)?;
    } else if val < 0x80_0000 {
        asn1_write_len(buf, 3)?;
        write_u8_to(buf, (val / 0x1_0000) as u8)?;
        write_u8_to(buf, (val / 0x100 % 0x100) as u8)?;
        write_u8_to(buf, (val % 0x100) as u8)?;
    } else {
        asn1_write_len(buf, 4)?;
        write_u8_to(buf, 0)?;
        write_u8_to(buf, (val / 0x1_0000) as u8)?;
        write_u8_to(buf, (val / 0x100 % 0x100) as u8)?;
        write_u8_to(buf, (val % 0x100) as u8)?;
    }
    proof {
        assert(buf@ =~= old(buf)@ + enc_int(val)->0);
    }
    Ok(())
}

/// Closing the sequence whose tag stands at `pos`: its length byte
/// gets the number of bytes after it. A sequence with more than 127
/// bytes of contents cannot be closed.
pub open spec fn close_one(bytes: Seq<u8>, pos: int) -> Option<Seq<u8>> {
    let n = bytes.len() - pos - 2;
    if 0 <= n <= MAX_SHORT_LEN {
        Some(bytes.update(pos + 1, n as u8))
    } else {
        None
    }
}

/// Closing all the sequences whose tags stand at the positions in
/// `stack`, the last one first.
pub open spec fn close_all(bytes: Seq<u8>, stack: Seq<int>) -> Option<Seq<u8>>
    decreases stack.len(),
{
    if stack.len() == 0 {
        Some(bytes)
    } else {
        match close_one(bytes, stack.last()) {
            Some(closed) => close_all(closed, stack.drop_last()),
            None => None,
        }
    }
}

/// Closing the innermost open sequence by hand and leaving the others
/// to be closed at the end gives what leaving them all gives: a
/// forgotten `end_seq` changes no byte of the encoding.
pub proof fn lemma_forgotten_end_seq(bytes: Seq<u8>, stack: Seq<int>)
    requires
        stack.len() > 0,
    ensures
        close_all(bytes, stack) == match close_one(bytes, stack.last()) {
            Some(closed) => close_all(closed, stack.drop_last()),
            None => None,
        },
{
}

/// The positions in `stack` rise, and each has its tag and length byte
/// within `len` bytes.
pub open spec fn stack_fits(stack: Seq<int>, len: int) -> bool {
    &&& forall|i: int| 0 <= i < stack.len() ==> 0 <= #[trigger] stack[i] && stack[i] + 2 <= len
    &&& forall|i: int, j: int| 0 <= i < j < stack.len() ==> stack[i] < stack[j]
}

/// All the open sequences can be closed exactly when the outermost
/// can, and closing changes no length.
pub proof fn lemma_close_all(bytes: Seq<u8>, stack: Seq<int>)
    requires
        stack_fits(stack, bytes.len() as int),
    ensures
        close_all(bytes, stack) is Some <==> (stack.len() == 0 || bytes.len() - stack[0] - 2
            <= MAX_SHORT_LEN),
        close_all(bytes, stack) matches Some(closed) ==> closed.len() == bytes.len(),
    decreases stack.len(),
{
    if stack.len() > 0 {
        let rest = stack.drop_last();
        match close_one(bytes, stack.last()) {
            Some(closed) => {
                lemma_close_all(closed, rest);
            },
            None => {},
        }
    }
}

struct Asn1EncoderStackEntry {
    pos: usize,
}

/// An output buffer with a stack of open sequences. A sequence is
/// opened with a placeholder for its length, which is set when the
/// sequence is closed.
pub struct Encoder {
    buffer: Vec<u8>,
    stack: Vec<Asn1EncoderStackEntry>,
}

impl Encoder {
    /// Every open sequence has its tag and its length byte in the
    /// bytes written, and the sequences were opened in order.
    pub open spec fn wf(&self) -> bool {
        stack_fits(self.open_seqs(), self.bytes().len() as int)
    }

    /// The bytes written so far.
    pub closed spec fn bytes(&self) -> Seq<u8> {
        self.buffer@
    }

    /// The positions of the tags of the open sequences, outermost
    /// first.
    pub closed spec fn open_seqs(&self) -> Seq<int> {
        Seq::new(self.stack@.len(), |i: int| self.stack@[i].pos as int)
    }

    /// An encoder with nothing written and nothing open.
    pub fn new() -> (e: Self)
        ensures
            e.wf(),
            e.bytes() == Seq::<u8>::empty(),
            e.open_seqs() == Seq::<int>::empty(),
    {
        let e = Encoder { buffer: Vec::new(), stack: Vec::new() };
        proof {
            assert(e.open_seqs() =~= Seq::<int>::empty());
        }
        e
    }

    /// Opens a sequence: writes the tag and a placeholder for the
    /// length.
    pub fn start_seq(&mut self, tag: u8) -> (done: Result<(), Error>)
        requires
            old(self).wf(),
        ensures
            final(self).wf(),
            done is Ok,
            final(self).bytes() == old(self).bytes() + seq![tag, 0u8],
            final(self).open_seqs() == old(self).open_seqs().push(old(self).bytes().len() as int),
    {
        let pos = self.buffer.len();
        let ghost before = self.open_seqs();
        write_tag(&mut self.buffer, tag)?;
        asn1_write_len(&mut self.buffer, 0)?;
        self.stack.push(Asn1EncoderStackEntry { pos });
        proof {
            assert(self.bytes() =~= old(self).bytes() + seq![tag, 0u8]);
            assert(self.open_seqs() =~= before.push(pos as int));
        }
        Ok(())
    }

    /// Closes the innermost open sequence: sets its length byte to the
    /// number of bytes written after it. With more than 127 such bytes
    /// it fails and changes nothing. With no sequence open it does
    /// nothing.
    pub fn end_seq(&mut self) -> (done: Result<(), Error>)
        requires
            old(self).wf(),
        ensures
            final(self).wf(),
            old(self).open_seqs().len() == 0 ==> done is Ok && final(self).bytes() == old(self).bytes() && final(self).open_seqs() == old(self).open_seqs(),
            old(self).open_seqs().len() > 0 ==> match close_one(
                old(self).bytes(),
                old(self).open_seqs().last(),
            ) {
                Some(closed) => done is Ok && final(self).bytes() == closed && final(self).open_seqs() == old(self).open_seqs().drop_last(),
                None => done == Err::<(), Error>(Error::Unsupported) && final(self).bytes() == old(self).bytes() && final(self).open_seqs() == old(self).open_seqs(),
            },
    {
        let depth = self.stack.len();
        if depth == 0 {
            return Ok(());
        }
        let pos = self.stack[depth - 1].pos;
        let ghost before = self.open_seqs();
        assert(before[depth - 1] == pos);
        let n = self.buffer.len() - pos - 2;
        if n > MAX_SHORT_LEN {
            return Err(Error::Unsupported);
        }
        self.stack.pop();
        self.buffer[pos + 1] = n as u8;
        proof {
            assert(self.open_seqs() =~= before.drop_last());
        }
        Ok(())
    }

    /// Closes every open sequence, the innermost first. Where one of
    /// them has more than 127 bytes of contents it fails and changes
    /// nothing.
    pub fn fix(&mut self) -> (done: Result<(), Error>)
        requires
            old(self).wf(),
        ensures
            final(self).wf(),
            match close_all(old(self).bytes(), old(self).open_seqs()) {
                Some(closed) => done is Ok && final(self).bytes() == closed && final(self).open_seqs().len() == 0,
                None => done == Err::<(), Error>(Error::Unsupported) && final(self).bytes() == old(self).bytes() && final(self).open_seqs() == old(self).open_seqs(),
            },
    {
        proof {
            lemma_close_all(self.bytes(), self.open_seqs());
        }
        if self.stack.len() > 0 {
            assert(self.open_seqs()[0] == self.stack@[0].pos);
            if self.buffer.len() - self.stack[0].pos - 2 > MAX_SHORT_LEN {
                return Err(Error::Unsupported);
            }
        }
        while self.stack.len() > 0
            invariant
                self.wf(),
                close_all(self.bytes(), self.open_seqs()) is Some,
                close_all(self.bytes(), self.open_seqs()) == close_all(
                    old(self).bytes(),
                    old(self).open_seqs(),
                ),
                self.open_seqs().len() == self.stack@.len(),
            decreases self.stack@.len(),
        {
            let ghost depth = self.open_seqs().len();
            self.end_seq()?;
            proof {
                assert(self.open_seqs().len() == depth - 1);
            }
        }
        Ok(())
    }

    /// Appends `val` as an octet string.
    pub fn write_octet_string(&mut self, val: &[u8]) -> (done: Result<(), Error>)
        requires
            old(self).wf(),
        ensures
            final(self).wf(),
            writes(old(self).bytes(), final(self).bytes(), done, enc_tlv(0x04, Some(val@))),
            final(self).open_seqs() == old(self).open_seqs(),
    {
        self.write_octet_string_with_tag(0x4, val)
    }

    /// Appends `val` as the contents of an element under `tag`.
    pub fn write_octet_string_with_tag(&mut self, tag: u8, val: &[u8]) -> (done: Result<
        (),
        Error,
    >)
        requires
            old(self).wf(),
        ensures
            final(self).wf(),
            writes(old(self).bytes(), final(self).bytes(), done, enc_tlv(tag, Some(val@))),
            final(self).open_seqs() == old(self).open_seqs(),
    {
        write_octet_string_with_tag(&mut self.buffer, tag, val)
    }

    /// Appends an enumerated value.
    pub fn write_enum(&mut self, val: u8) -> (done: Result<(), Error>)
        requires
            old(self).wf(),
        ensures
            final(self).wf(),
            writes(old(self).bytes(), final(self).bytes(), done, Some(enc_enum(val))),
            final(self).open_seqs() == old(self).open_seqs(),
    {
        write_enum(&mut self.buffer, val)
    }

    /// Appends a boolean.
    pub fn write_bool(&mut self, val: bool) -> (done: Result<(), Error>)
        requires
            old(self).wf(),
        ensures
            final(self).wf(),
            writes(old(self).bytes(), final(self).bytes(), done, Some(enc_bool(val))),
            final(self).open_seqs() == old(self).open_seqs(),
    {
        write_bool(&mut self.buffer, val)
    }

    /// Appends an unsigned integer.
    pub fn write_int(&mut self, val: u32) -> (done: Result<(), Error>)
        requires
            old(self).wf(),
        ensures
            final(self).wf(),
            writes(old(self).bytes(), final(self).bytes(), done, enc_int(val)),
            final(self).open_seqs() == old(self).open_seqs(),
    {
        write_int(&mut self.buffer, val)
    }

    /// Closes every open sequence and hands out the bytes. Where a
    /// sequence has more than 127 bytes of contents there is no
    /// encoding.
    pub fn encode(self) -> (bytes: Result<Vec<u8>, Error>)
        requires
            self.wf(),
        ensures
            match close_all(self.bytes(), self.open_seqs()) {
                Some(closed) => bytes matches Ok(v) && v@ == closed,
                None => bytes == Err::<Vec<u8>, Error>(Error::Unsupported),
            },
    {
        let mut e = self;
        e.fix()?;
        Ok(e.buffer)
    }
}

} // verus!
