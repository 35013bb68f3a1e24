//! Response serialization: tagged values and their byte encoding.
//!
//! A response payload is one tagged value.  The tag is one byte; `ERR`
//! carries a 4-byte code and a length-prefixed message, `STR` a
//! length-prefixed byte string, `INT` a signed 64-bit little-endian
//! integer, and `ARR` a 4-byte element count followed by the encoded
//! elements.  Nested arrays are permitted by the format.

use vstd::prelude::*;
use vstd::bytes::spec_u32_to_le_bytes;
use vstd::bytes::spec_u64_to_le_bytes;
use vstd::bytes::u32_to_le_bytes;
use vstd::bytes::u64_to_le_bytes;

verus! {

/// Tag byte for the nil value.
pub const SER_NIL: u8 = 0;

/// Tag byte for an error code plus message.
pub const SER_ERR: u8 = 1;

/// Tag byte for a byte string.
pub const SER_STR: u8 = 2;

/// Tag byte for a signed 64-bit integer.
pub const SER_INT: u8 = 3;

/// Tag byte for an array of tagged values.
pub const SER_ARR: u8 = 4;

/// Error code: success.
pub const RES_OK: u32 = 0;

/// Error code: generic error.
pub const RES_ERR: u32 = 1;

/// Error code: not found / over a limit.
pub const RES_NX: u32 = 2;

/// The mathematical shape of a tagged response value.
pub ghost enum ValueV {
    Nil,
    Error { code: u32, msg: Seq<u8> },
    Str { data: Seq<u8> },
    Int { value: i64 },
    Arr { elems: Seq<ValueV> },
}

/// The two's-complement image of a signed 64-bit value.
pub open spec fn spec_i64_to_u64(v: i64) -> u64 {
    if v >= 0 {
        v as u64
    } else {
        (v + 0x1_0000_0000_0000_0000) as u64
    }
}

/// Serialization of one tagged value.
pub open spec fn enc(v: ValueV) -> Seq<u8>
    decreases v,
{
    match v {
        ValueV::Nil => seq![SER_NIL],
        ValueV::Error { code, msg } => seq![SER_ERR] + spec_u32_to_le_bytes(code)
            + spec_u32_to_le_bytes(msg.len() as u32) + msg,
        ValueV::Str { data } => seq![SER_STR] + spec_u32_to_le_bytes(data.len() as u32) + data,
        ValueV::Int { value } => seq![SER_INT] + spec_u64_to_le_bytes(spec_i64_to_u64(value)),
        ValueV::Arr { elems } => seq![SER_ARR] + spec_u32_to_le_bytes(elems.len() as u32)
            + enc_list(elems),
    }
}

/// Serialization of a list of tagged values, in order.
pub open spec fn enc_list(s: Seq<ValueV>) -> Seq<u8>
    decreases s,
{
    if s.len() == 0 {
        Seq::empty()
    } else {
        enc(s[0]) + enc_list(s.subrange(1, s.len() as int))
    }
}

/// Convert a signed 64-bit value to its two's-complement image.
pub fn i64_to_u64(v: i64) -> (r: u64)
    ensures
        r == spec_i64_to_u64(v),
{
    if v >= 0 {
        v as u64
    } else {
        u64::MAX - ((-(v + 1)) as u64)
    }
}

/// The signed reading of a 64-bit two's-complement image.
pub open spec fn spec_u64_to_i64(u: u64) -> i64 {
    if u <= i64::MAX as u64 {
        u as i64
    } else {
        ((u as int) - 0x1_0000_0000_0000_0000) as i64
    }
}

/// Recover a signed 64-bit value from its two's-complement image.
pub fn u64_to_i64(u: u64) -> (r: i64)
    ensures
        spec_i64_to_u64(r) == u,
        r == spec_u64_to_i64(u),
{
    if u <= (i64::MAX as u64) {
        u as i64
    } else {
        -((u64::MAX - u) as i64) - 1
    }
}

/// Append the encoding of the nil value.
pub fn out_nil(out: &mut Vec<u8>)
    ensures
        final(out)@ == old(out)@ + enc(ValueV::Nil),
{
    out.push(SER_NIL);
    proof {
        assert(out@ =~= old(out)@ + enc(ValueV::Nil));
    }
}

/// Append the encoding of a byte-string value.
pub fn out_str(out: &mut Vec<u8>, s: &[u8])
    requires
        s@.len() <= u32::MAX,
    ensures
        final(out)@ == old(out)@ + enc(ValueV::Str { data: s@ }),
{
    out.push(SER_STR);
    let mut lb = u32_to_le_bytes(s.len() as u32);
    out.append(&mut lb);
    out.extend_from_slice(s);
    proof {
        assert(out@ =~= old(out)@ + enc(ValueV::Str { data: s@ }));
    }
}

/// Append the encoding of a signed 64-bit integer value.
pub fn out_int(out: &mut Vec<u8>, n: i64)
    ensures
        final(out)@ == old(out)@ + enc(ValueV::Int { value: n }),
{
    out.push(SER_INT);
    let mut vb = u64_to_le_bytes(i64_to_u64(n));
    out.append(&mut vb);
    proof {
        assert(out@ =~= old(out)@ + enc(ValueV::Int { value: n }));
    }
}

/// Append the encoding of an error value.
pub fn out_err(out: &mut Vec<u8>, err: u32, msg: &[u8])
    requires
        msg@.len() <= u32::MAX,
    ensures
        final(out)@ == old(out)@ + enc(ValueV::Error { code: err, msg: msg@ }),
{
    out.push(SER_ERR);
    let mut cb = u32_to_le_bytes(err);
    out.append(&mut cb);
    let mut lb = u32_to_le_bytes(msg.len() as u32);
    out.append(&mut lb);
    out.extend_from_slice(msg);
    proof {
        assert(out@ =~= old(out)@ + enc(ValueV::Error { code: err, msg: msg@ }));
    }
}

/// Append an array header announcing `n` elements; the caller appends the
/// `n` encoded elements after it.
pub fn out_arr(out: &mut Vec<u8>, n: u32)
    ensures
        final(out)@ == old(out)@ + seq![SER_ARR] + spec_u32_to_le_bytes(n),
{
    out.push(SER_ARR);
    let mut lb = u32_to_le_bytes(n);
    out.append(&mut lb);
    proof {
        assert(out@ =~= old(out)@ + seq![SER_ARR] + spec_u32_to_le_bytes(n));
    }
}

/// The text of the reply to an unrecognized command verb.
pub open spec fn spec_msg_unknown_cmd() -> Seq<u8> {
    seq![85u8, 110u8, 107u8, 110u8, 111u8, 119u8, 110u8, 32u8, 67u8, 77u8, 68u8]
}

/// "Unknown CMD" as bytes.
pub fn msg_unknown_cmd() -> (r: Vec<u8>)
    ensures
        r@ == spec_msg_unknown_cmd(),
{
    let mut v: Vec<u8> = Vec::new();
    v.push(85);
    v.push(110);
    v.push(107);
    v.push(110);
    v.push(111);
    v.push(119);
    v.push(110);
    v.push(32);
    v.push(67);
    v.push(77);
    v.push(68);
    proof {
        assert(v@ =~= spec_msg_unknown_cmd());
    }
    v
}

/// The text of the reply that replaces an oversized response.
pub open spec fn spec_msg_too_big() -> Seq<u8> {
    seq![
        82u8, 101u8, 115u8, 112u8, 111u8, 110u8, 115u8, 101u8, 32u8, 105u8, 115u8, 32u8, 116u8,
        111u8, 111u8, 32u8, 98u8, 105u8, 103u8,
    ]
}

/// "Response is too big" as bytes.
pub fn msg_too_big() -> (r: Vec<u8>)
    ensures
        r@ == spec_msg_too_big(),
{
    let mut v: Vec<u8> = Vec::new();
    v.push(82);
    v.push(101);
    v.push(115);
    v.push(112);
    v.push(111);
    v.push(110);
    v.push(115);
    v.push(101);
    v.push(32);
    v.push(105);
    v.push(115);
    v.push(32);
    v.push(116);
    v.push(111);
    v.push(111);
    v.push(32);
    v.push(98);
    v.push(105);
    v.push(103);
    proof {
        assert(v@ =~= spec_msg_too_big());
    }
    v
}

/// The error value that replaces any reply too large for a frame.
pub open spec fn spec_too_big_reply() -> ValueV {
    ValueV::Error { code: RES_NX, msg: spec_msg_too_big() }
}

/// The length of each value's serialization.
pub proof fn lemma_enc_len(v: ValueV)
    ensures
        match v {
            ValueV::Nil => enc(v).len() == 1,
            ValueV::Error { code, msg } => enc(v).len() == 9 + msg.len(),
            ValueV::Str { data } => enc(v).len() == 5 + data.len(),
            ValueV::Int { value } => enc(v).len() == 9,
            ValueV::Arr { elems } => enc(v).len() == 5 + enc_list(elems).len(),
        },
{
    vstd::bytes::lemma_auto_spec_u32_to_from_le_bytes();
    vstd::bytes::lemma_auto_spec_u64_to_from_le_bytes();
}

/// Serializing one more element extends the serialization of the prefix.
pub proof fn lemma_enc_list_take(es: Seq<ValueV>, i: int)
    requires
        0 <= i < es.len(),
    ensures
        enc_list(es.take(i + 1)) == enc_list(es.take(i)) + enc(es[i]),
    decreases i,
{
    if i == 0 {
        assert(es.take(0) =~= Seq::<ValueV>::empty());
        assert(es.take(1)[0] == es[0]);
        assert(es.take(1).subrange(1, 1) =~= Seq::<ValueV>::empty());
        assert(enc_list(es.take(1)) =~= enc_list(es.take(0)) + enc(es[0]));
    } else {
        lemma_enc_list_take(es.subrange(1, es.len() as int), i - 1);
        let tail = es.subrange(1, es.len() as int);
        assert(es.take(i + 1).subrange(1, i + 1) =~= tail.take(i));
        assert(es.take(i).subrange(1, i) =~= tail.take(i - 1));
        assert(es.take(i + 1)[0] == es[0]);
        assert(es.take(i)[0] == es[0]);
        assert(tail[i - 1] == es[i]);
        assert(enc_list(es.take(i + 1)) =~= enc_list(es.take(i)) + enc(es[i]));
    }
}

} // verus!
