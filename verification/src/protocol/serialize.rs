//! Primitive field encodings: big-endian `i32`s, strings as a big-endian
//! `i32` byte length followed by their UTF-8 bytes, and `i32` vectors as a
//! big-endian `i32` count followed by the elements.
use vstd::prelude::*;
use vstd::utf8::{decode_utf8, encode_utf8, valid_utf8};
use vstd::slice::slice_to_vec;
use crate::protocol::error::{ProtocolError, ProtocolErrorView};
use crate::text::{decimal_int, push_decimal_u64};

verus! {

// ---------------------------------------------------------------------
// Model of the encodings
// ---------------------------------------------------------------------

/// The four big-endian bytes of `v`.
pub open spec fn i32_wire(v: i32) -> Seq<u8> {
    let u = v as u32;
    seq![(u >> 24u32) as u8, (u >> 16u32) as u8, (u >> 8u32) as u8, u as u8]
}

/// The `i32` whose big-endian bytes start `b`.
pub open spec fn i32_from_wire(b: Seq<u8>) -> i32
    recommends
        b.len() >= 4,
{
    ((b[0] as u32) << 24u32 | (b[1] as u32) << 16u32 | (b[2] as u32) << 8u32 | (b[3] as u32)) as i32
}

/// A string on the wire: its UTF-8 byte length, then those bytes.
pub open spec fn string_wire(s: Seq<char>) -> Seq<u8> {
    i32_wire(encode_utf8(s).len() as i32) + encode_utf8(s)
}

/// The elements of an `i32` vector, one after the other.
pub open spec fn i32s_wire(vs: Seq<i32>) -> Seq<u8>
    decreases vs.len(),
{
    if vs.len() == 0 {
        Seq::empty()
    } else {
        i32s_wire(vs.drop_last()) + i32_wire(vs.last())
    }
}

/// An `i32` vector on the wire: its element count, then the elements.
pub open spec fn vec_i32_wire(vs: Seq<i32>) -> Seq<u8> {
    i32_wire(vs.len() as i32) + i32s_wire(vs)
}

/// The text of the error for an `i32` read from `have` bytes.
pub open spec fn short_i32_message(have: nat) -> Seq<char> {
    "for i32 (need 4 bytes, have "@ + decimal_int(have as int) + ")"@
}

/// The text of the error for a string of announced length `len` read from
/// `have` remaining bytes.
pub open spec fn short_string_message(len: i32, have: nat) -> Seq<char> {
    "for string (need "@ + decimal_int(len as int) + " bytes, have "@ + decimal_int(have as int)
        + ")"@
}

/// Reading an `i32` from the front of `s`: the value and what follows it.
pub open spec fn read_i32_spec(s: Seq<u8>) -> Result<(i32, Seq<u8>), ProtocolErrorView> {
    if s.len() < 4 {
        Err(ProtocolErrorView::NotEnoughBytes(short_i32_message(s.len())))
    } else {
        Ok((i32_from_wire(s), s.skip(4)))
    }
}

/// Reading a string from the front of `s`: its characters and what follows.
pub open spec fn read_string_spec(s: Seq<u8>) -> Result<(Seq<char>, Seq<u8>), ProtocolErrorView> {
    match read_i32_spec(s) {
        Err(e) => Err(e),
        Ok((len, rest)) => {
            if len < 0 || rest.len() < len {
                Err(ProtocolErrorView::NotEnoughBytes(short_string_message(len, rest.len())))
            } else if !valid_utf8(rest.take(len as int)) {
                Err(ProtocolErrorView::InvalidUtf8)
            } else {
                Ok((decode_utf8(rest.take(len as int)), rest.skip(len as int)))
            }
        },
    }
}

/// Reading `n` consecutive `i32`s from the front of `s`.
pub open spec fn read_i32s_spec(s: Seq<u8>, n: nat) -> Result<(Seq<i32>, Seq<u8>), ProtocolErrorView>
    decreases n,
{
    if n == 0 {
        Ok((Seq::empty(), s))
    } else {
        match read_i32s_spec(s, (n - 1) as nat) {
            Err(e) => Err(e),
            Ok((vs, rest)) => match read_i32_spec(rest) {
                Err(e) => Err(e),
                Ok((v, rest2)) => Ok((vs.push(v), rest2)),
            },
        }
    }
}

/// Reading an `i32` vector from the front of `s`.
pub open spec fn read_vec_i32_spec(s: Seq<u8>) -> Result<(Seq<i32>, Seq<u8>), ProtocolErrorView> {
    match read_i32_spec(s) {
        Err(e) => Err(e),
        Ok((len, rest)) => {
            if len < 0 {
                Err(ProtocolErrorView::NegativeVectorLength)
            } else {
                read_i32s_spec(rest, len as nat)
            }
        },
    }
}

/// Once reading `k` elements fails, reading more fails the same way.
proof fn lemma_read_i32s_error_persists(s: Seq<u8>, k: nat, n: nat)
    requires
        k <= n,
        read_i32s_spec(s, k) is Err,
    ensures
        read_i32s_spec(s, n) == read_i32s_spec(s, k),
    decreases n - k,
{
    if k < n {
        lemma_read_i32s_error_persists(s, k, (n - 1) as nat);
    }
}

pub open spec fn i32_result_view<'a>(r: Result<(i32, &'a [u8]), ProtocolError>) -> Result<
    (i32, Seq<u8>),
    ProtocolErrorView,
> {
    match r {
        Ok((v, rest)) => Ok((v, rest@)),
        Err(e) => Err(e@),
    }
}

pub open spec fn string_result_view<'a>(r: Result<(String, &'a [u8]), ProtocolError>) -> Result<
    (Seq<char>, Seq<u8>),
    ProtocolErrorView,
> {
    match r {
        Ok((v, rest)) => Ok((v@, rest@)),
        Err(e) => Err(e@),
    }
}

pub open spec fn vec_i32_result_view<'a>(r: Result<(Vec<i32>, &'a [u8]), ProtocolError>) -> Result<
    (Seq<i32>, Seq<u8>),
    ProtocolErrorView,
> {
    match r {
        Ok((v, rest)) => Ok((v@, rest@)),
        Err(e) => Err(e@),
    }
}


// ---------------------------------------------------------------------
// Laws of the encodings
// ---------------------------------------------------------------------

/// The big-endian bytes of an `i32` read back as that `i32`.
pub proof fn lemma_i32_wire_roundtrip(v: i32)
    ensures
        i32_wire(v).len() == 4,
        i32_from_wire(i32_wire(v)) == v,
{
    let u = v as u32;
    let b0 = (u >> 24u32) as u8;
    let b1 = (u >> 16u32) as u8;
    let b2 = (u >> 8u32) as u8;
    let b3 = u as u8;
    assert(((b0 as u32) << 24u32 | (b1 as u32) << 16u32 | (b2 as u32) << 8u32 | (b3 as u32)) == u)
        by (bit_vector)
        requires
            b0 == (u >> 24u32) as u8,
            b1 == (u >> 16u32) as u8,
            b2 == (u >> 8u32) as u8,
            b3 == u as u8,
    ;
    assert(((u as i32) as u32) == u && (v as u32) as i32 == v) by (bit_vector)
        requires
            u == v as u32,
    ;
}

/// Four bytes read as an `i32` are that `i32`'s big-endian bytes.
pub proof fn lemma_i32_from_wire_bytes(b: Seq<u8>)
    requires
        b.len() >= 4,
    ensures
        i32_wire(i32_from_wire(b)) == b.take(4),
{
    let b0 = b[0];
    let b1 = b[1];
    let b2 = b[2];
    let b3 = b[3];
    let u = (b0 as u32) << 24u32 | (b1 as u32) << 16u32 | (b2 as u32) << 8u32 | (b3 as u32);
    assert((u >> 24u32) as u8 == b0 && (u >> 16u32) as u8 == b1 && (u >> 8u32) as u8 == b2
        && u as u8 == b3) by (bit_vector)
        requires
            u == (b0 as u32) << 24u32 | (b1 as u32) << 16u32 | (b2 as u32) << 8u32 | (b3 as u32),
    ;
    assert(((u as i32) as u32) == u) by (bit_vector);
    assert(i32_wire(i32_from_wire(b)) =~= b.take(4));
}

/// Reading an `i32` from its encoding followed by anything gives the `i32`
/// back and leaves exactly what followed.
pub proof fn law_read_i32_of_push(v: i32, rest: Seq<u8>)
    ensures
        read_i32_spec(i32_wire(v) + rest) == Ok::<(i32, Seq<u8>), ProtocolErrorView>((v, rest)),
{
    lemma_i32_wire_roundtrip(v);
    let s = i32_wire(v) + rest;
    assert(s.take(4) =~= i32_wire(v));
    assert(s.skip(4) =~= rest);
    assert(i32_from_wire(s) == i32_from_wire(i32_wire(v)));
}

/// A successful `i32` read consumed exactly the value's encoding.
pub proof fn law_read_i32_consumes_encoding(s: Seq<u8>)
    ensures
        read_i32_spec(s) matches Ok((v, rest)) ==> s == i32_wire(v) + rest,
{
    if s.len() >= 4 {
        lemma_i32_from_wire_bytes(s);
        assert(s =~= s.take(4) + s.skip(4));
    }
}

/// Reading a string from its encoding followed by anything gives the string
/// back and leaves exactly what followed, for every string whose UTF-8
/// length fits the `i32` length prefix.
pub proof fn law_read_string_of_push(text: Seq<char>, rest: Seq<u8>)
    requires
        encode_utf8(text).len() <= i32::MAX,
    ensures
        read_string_spec(string_wire(text) + rest) == Ok::<(Seq<char>, Seq<u8>), ProtocolErrorView>(
            (text, rest),
        ),
{
    let bytes = encode_utf8(text);
    let n = bytes.len() as i32;
    vstd::utf8::encode_utf8_valid_utf8(text);
    vstd::utf8::encode_utf8_decode_utf8(text);
    let s = string_wire(text) + rest;
    assert(s =~= i32_wire(n) + (bytes + rest));
    law_read_i32_of_push(n, bytes + rest);
    assert((bytes + rest).take(n as int) =~= bytes);
    assert((bytes + rest).skip(n as int) =~= rest);
}

/// A successful string read consumed exactly the string's encoding.
pub proof fn law_read_string_consumes_encoding(s: Seq<u8>)
    ensures
        read_string_spec(s) matches Ok((text, rest)) ==> s == string_wire(text) + rest,
{
    law_read_i32_consumes_encoding(s);
    if let Ok((text, rest)) = read_string_spec(s) {
        let (len, after) = read_i32_spec(s)->Ok_0;
        let taken = after.take(len as int);
        vstd::utf8::decode_utf8_encode_utf8(taken);
        assert(encode_utf8(text) == taken);
        assert(after =~= taken + rest);
        assert(s =~= i32_wire(len) + taken + rest);
    }
}

proof fn lemma_read_i32s_of_push(vs: Seq<i32>, rest: Seq<u8>)
    ensures
        read_i32s_spec(i32s_wire(vs) + rest, vs.len()) == Ok::<(Seq<i32>, Seq<u8>), ProtocolErrorView>(
            (vs, rest),
        ),
    decreases vs.len(),
{
    if vs.len() > 0 {
        let init = vs.drop_last();
        let tail = i32_wire(vs.last()) + rest;
        let s = i32s_wire(vs) + rest;
        assert(s =~= i32s_wire(init) + tail);
        lemma_read_i32s_of_push(init, tail);
        law_read_i32_of_push(vs.last(), rest);
        assert(init.push(vs.last()) =~= vs);
        assert(read_i32s_spec(s, init.len()) == Ok::<(Seq<i32>, Seq<u8>), ProtocolErrorView>(
            (init, tail),
        ));
        assert((vs.len() - 1) as nat == init.len());
    } else {
        assert(i32s_wire(vs) + rest =~= rest);
        assert(vs =~= Seq::<i32>::empty());
    }
}

/// Reading an `i32` vector from its encoding followed by anything gives the
/// vector back and leaves exactly what followed, for every vector whose
/// length fits the `i32` count.
pub proof fn law_read_vec_i32_of_push(vs: Seq<i32>, rest: Seq<u8>)
    requires
        vs.len() <= i32::MAX,
    ensures
        read_vec_i32_spec(vec_i32_wire(vs) + rest) == Ok::<(Seq<i32>, Seq<u8>), ProtocolErrorView>(
            (vs, rest),
        ),
{
    let n = vs.len() as i32;
    assert(vec_i32_wire(vs) + rest =~= i32_wire(n) + (i32s_wire(vs) + rest));
    law_read_i32_of_push(n, i32s_wire(vs) + rest);
    lemma_read_i32s_of_push(vs, rest);
}

// ---------------------------------------------------------------------
// Trusted call
// ---------------------------------------------------------------------

/// Calls `String::from_utf8`. Its documentation: it succeeds exactly when
/// the bytes are valid UTF-8, and the string then holds the characters they
/// encode. The contract states this with vstd's model of UTF-8.
#[verifier::external_body]
pub(crate) fn string_from_utf8(bytes: Vec<u8>) -> (r: Option<String>)
    ensures
        r is Some <==> valid_utf8(bytes@),
        r matches Some(s) ==> s@ == decode_utf8(bytes@),
{
    String::from_utf8(bytes).ok()
}

// ---------------------------------------------------------------------
// Readers
// ---------------------------------------------------------------------

/// Reads a big-endian `i32` from the front of `bytes`, returning it and the
/// bytes that follow.
pub fn read_i32(bytes: &[u8]) -> (r: Result<(i32, &[u8]), ProtocolError>)
    ensures
        i32_result_view(r) == read_i32_spec(bytes@),
{
    if bytes.len() < 4 {
        let mut msg = "for i32 (need 4 bytes, have ".to_string();
        push_decimal_u64(&mut msg, bytes.len() as u64);
        msg.append(")");
        return Err(ProtocolError::NotEnoughBytes(msg));
    }
    let value = ((bytes[0] as u32) << 24u32 | (bytes[1] as u32) << 16u32 | (bytes[2] as u32) << 8u32
        | (bytes[3] as u32)) as i32;
    Ok((value, &bytes[4..bytes.len()]))
}

/// Reads a length-prefixed UTF-8 string from the front of `bytes`, returning
/// it and the bytes that follow.
pub fn read_string(bytes: &[u8]) -> (r: Result<(String, &[u8]), ProtocolError>)
    ensures
        string_result_view(r) == read_string_spec(bytes@),
{
    let (len, rest) = match read_i32(bytes) {
        Ok(p) => p,
        Err(e) => return Err(e),
    };
    if len < 0 || rest.len() < len as usize {
        let mut msg = "for string (need ".to_string();
        if len < 0 {
            crate::text::push_decimal_i64(&mut msg, len as i64);
        } else {
            push_decimal_u64(&mut msg, len as u64);
        }
        msg.append(" bytes, have ");
        push_decimal_u64(&mut msg, rest.len() as u64);
        msg.append(")");
        return Err(ProtocolError::NotEnoughBytes(msg));
    }
    let n = len as usize;
    let string_bytes = slice_to_vec(&rest[0..n]);
    let remaining = &rest[n..rest.len()];
    match string_from_utf8(string_bytes) {
        Some(s) => Ok((s, remaining)),
        None => Err(ProtocolError::InvalidUtf8),
    }
}

/// Reads an `i32` vector (count, then elements) from the front of `bytes`,
/// returning it and the bytes that follow.
pub fn read_vec_i32(bytes: &[u8]) -> (r: Result<(Vec<i32>, &[u8]), ProtocolError>)
    ensures
        vec_i32_result_view(r) == read_vec_i32_spec(bytes@),
{
    let (len, start) = match read_i32(bytes) {
        Ok(p) => p,
        Err(e) => return Err(e),
    };
    if len < 0 {
        return Err(ProtocolError::NegativeVectorLength());
    }
    let mut values: Vec<i32> = Vec::new();
    let mut rest = start;
    let mut i: i32 = 0;
    while i < len
        invariant
            0 <= i <= len,
            read_i32_spec(bytes@) == Ok::<(i32, Seq<u8>), ProtocolErrorView>((len, start@)),
            read_i32s_spec(start@, i as nat) == Ok::<(Seq<i32>, Seq<u8>), ProtocolErrorView>(
                (values@, rest@),
            ),
        decreases len - i,
    {
        let (value, remaining) = match read_i32(rest) {
            Ok(p) => p,
            Err(e) => {
                proof {
                    assert(read_i32s_spec(start@, (i + 1) as nat) == Err::<(Seq<i32>, Seq<u8>), ProtocolErrorView>(e@));
                    lemma_read_i32s_error_persists(start@, (i + 1) as nat, len as nat);
                }
                return Err(e);
            },
        };
        values.push(value);
        rest = remaining;
        i += 1;
    }
    Ok((values, rest))
}

// ---------------------------------------------------------------------
// Writers
// ---------------------------------------------------------------------

/// Appends `bytes` to `buf`.
pub fn push_bytes(buf: &mut Vec<u8>, bytes: &[u8])
    ensures
        final(buf)@ == old(buf)@ + bytes@,
{
    let mut i: usize = 0;
    while i < bytes.len()
        invariant
            i <= bytes.len(),
            buf@ == old(buf)@ + bytes@.take(i as int),
        decreases bytes.len() - i,
    {
        buf.push(bytes[i]);
        i += 1;
        assert(buf@ =~= old(buf)@ + bytes@.take(i as int));
    }
    assert(bytes@.take(bytes.len() as int) =~= bytes@);
}

/// Appends the big-endian bytes of `value` to `buf`.
pub fn push_i32(buf: &mut Vec<u8>, value: i32)
    ensures
        final(buf)@ == old(buf)@ + i32_wire(value),
{
    let u = value as u32;
    buf.push((u >> 24u32) as u8);
    buf.push((u >> 16u32) as u8);
    buf.push((u >> 8u32) as u8);
    buf.push(u as u8);
    assert(buf@ =~= old(buf)@ + i32_wire(value));
}

/// Appends `value` as a length-prefixed UTF-8 string to `buf`.
pub fn push_string(buf: &mut Vec<u8>, value: &str)
    ensures
        final(buf)@ == old(buf)@ + string_wire(value@),
{
    let bytes = value.as_bytes();
    push_i32(buf, bytes.len() as i32);
    push_bytes(buf, bytes);
    assert(buf@ =~= old(buf)@ + string_wire(value@));
}

/// Appends `values` as an `i32` vector (count, then elements) to `buf`.
pub fn push_vec_i32(buf: &mut Vec<u8>, values: &[i32])
    ensures
        final(buf)@ == old(buf)@ + vec_i32_wire(values@),
{
    push_i32(buf, values.len() as i32);
    let ghost head = buf@;
    let mut i: usize = 0;
    while i < values.len()
        invariant
            i <= values.len(),
            head == old(buf)@ + i32_wire(values@.len() as i32),
            buf@ == head + i32s_wire(values@.take(i as int)),
        decreases values.len() - i,
    {
        push_i32(buf, values[i]);
        assert(values@.take(i + 1).drop_last() =~= values@.take(i as int));
        i += 1;
        assert(buf@ =~= head + i32s_wire(values@.take(i as int)));
    }
    assert(values@.take(values.len() as int) =~= values@);
    assert(buf@ =~= old(buf)@ + vec_i32_wire(values@));
}

} // verus!
