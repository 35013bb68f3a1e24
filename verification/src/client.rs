//! The client side of the wire contract: decoding a response payload into
//! a flat stream of display tokens.
//!
//! The decoder walks the tagged-value serialization; arrays become an
//! `ArrStart` token, their decoded elements, and an `ArrEnd` token, so a
//! printer can render the stream without recursion.  An unknown tag, a
//! truncated value, or trailing bytes after the top-level value is a
//! decode error.

use vstd::prelude::*;
use vstd::bytes::spec_u32_from_le_bytes;
use vstd::bytes::spec_u32_to_le_bytes;
use vstd::bytes::spec_u64_from_le_bytes;
use vstd::bytes::u32_from_le_bytes;
use vstd::bytes::u64_from_le_bytes;
use vstd::slice::slice_subrange;
use vstd::slice::slice_to_vec;
use crate::resp::ValueV;
use crate::resp::enc;
use crate::resp::enc_list;
use crate::resp::SER_NIL;
use crate::resp::SER_ERR;
use crate::resp::SER_STR;
use crate::resp::SER_INT;
use crate::resp::SER_ARR;
use crate::resp::spec_u64_to_i64;
use crate::resp::u64_to_i64;

verus! {

/// Decode one tagged value starting at `pos`; yields the value and the
/// position just past it.
pub open spec fn dec_value(data: Seq<u8>, pos: int) -> Option<(ValueV, int)>
    decreases data.len() - pos, 0int,
{
    if pos < 0 || pos >= data.len() {
        None
    } else {
        let tag = data[pos];
        if tag == SER_NIL {
            Some((ValueV::Nil, pos + 1))
        } else if tag == SER_ERR {
            if pos + 9 <= data.len() {
                let code = spec_u32_from_le_bytes(data.subrange(pos + 1, pos + 5));
                let mlen = spec_u32_from_le_bytes(data.subrange(pos + 5, pos + 9)) as int;
                if pos + 9 + mlen <= data.len() {
                    Some(
                        (
                            ValueV::Error { code, msg: data.subrange(pos + 9, pos + 9 + mlen) },
                            pos + 9 + mlen,
                        ),
                    )
                } else {
                    None
                }
            } else {
                None
            }
        } else if tag == SER_STR {
            if pos + 5 <= data.len() {
                let slen = spec_u32_from_le_bytes(data.subrange(pos + 1, pos + 5)) as int;
                if pos + 5 + slen <= data.len() {
                    Some(
                        (
                            ValueV::Str { data: data.subrange(pos + 5, pos + 5 + slen) },
                            pos + 5 + slen,
                        ),
                    )
                } else {
                    None
                }
            } else {
                None
            }
        } else if tag == SER_INT {
            if pos + 9 <= data.len() {
                Some(
                    (
                        ValueV::Int {
                            value: spec_u64_to_i64(
                                spec_u64_from_le_bytes(data.subrange(pos + 1, pos + 9)),
                            ),
                        },
                        pos + 9,
                    ),
                )
            } else {
                None
            }
        } else if tag == SER_ARR {
            if pos + 5 <= data.len() {
                let n = spec_u32_from_le_bytes(data.subrange(pos + 1, pos + 5)) as int;
                match dec_list(data, pos + 5, n) {
                    Some((vs, end)) => Some((ValueV::Arr { elems: vs }, end)),
                    None => None,
                }
            } else {
                None
            }
        } else {
            None
        }
    }
}

/// Decode `n` consecutive tagged values starting at `pos`.  (The guard
/// `pos < p2` makes termination evident; `lemma_dec_value_advances`
/// proves it never rejects anything.)
pub open spec fn dec_list(data: Seq<u8>, pos: int, n: int) -> Option<(Seq<ValueV>, int)>
    decreases data.len() - pos, n + 1,
{
    if pos < 0 || pos > data.len() || n < 0 {
        None
    } else if n == 0 {
        Some((Seq::empty(), pos))
    } else {
        match dec_value(data, pos) {
            Some((v, p2)) => {
                if pos < p2 <= data.len() {
                    match dec_list(data, p2, n - 1) {
                        Some((vs, end)) => Some((seq![v] + vs, end)),
                        None => None,
                    }
                } else {
                    None
                }
            }
            None => None,
        }
    }
}

/// `dec_value` succeeded with this value and end position.
pub open spec fn dec_ok(data: Seq<u8>, pos: int, v: ValueV, end: int) -> bool {
    dec_value(data, pos) == Some((v, end))
}

/// A successful decode consumes at least one byte and stays in bounds —
/// so the advance guard in `dec_list` never rejects anything.
pub proof fn lemma_dec_value_advances(data: Seq<u8>, pos: int)
    ensures
        match dec_value(data, pos) {
            Some((v, end)) => pos < end <= data.len(),
            None => true,
        },
    decreases data.len() - pos, 0int,
{
    if 0 <= pos < data.len() && data[pos] == SER_ARR && pos + 5 <= data.len() {
        let n = spec_u32_from_le_bytes(data.subrange(pos + 1, pos + 5)) as int;
        lemma_dec_list_bounds(data, pos + 5, n);
    }
}

/// A successful list decode never moves backwards and stays in bounds.
pub proof fn lemma_dec_list_bounds(data: Seq<u8>, pos: int, n: int)
    ensures
        match dec_list(data, pos, n) {
            Some((vs, end)) => pos <= end <= data.len() && vs.len() == n,
            None => true,
        },
    decreases data.len() - pos, n + 1,
{
    if 0 <= pos <= data.len() && n > 0 {
        lemma_dec_value_advances(data, pos);
        match dec_value(data, pos) {
            Some((v, p2)) => {
                if pos < p2 <= data.len() {
                    lemma_dec_list_bounds(data, p2, n - 1);
                }
            }
            None => {}
        }
    }
}

/// Every length in the value fits the wire's 32-bit counters.
pub open spec fn val_wf(v: ValueV) -> bool
    decreases v,
{
    match v {
        ValueV::Nil => true,
        ValueV::Error { code, msg } => msg.len() <= u32::MAX,
        ValueV::Str { data } => data.len() <= u32::MAX,
        ValueV::Int { value } => true,
        ValueV::Arr { elems } => elems.len() <= u32::MAX && list_wf(elems),
    }
}

/// Every length in every element fits the wire's 32-bit counters.
pub open spec fn list_wf(vs: Seq<ValueV>) -> bool
    decreases vs,
{
    if vs.len() == 0 {
        true
    } else {
        val_wf(vs[0]) && list_wf(vs.subrange(1, vs.len() as int))
    }
}

/// Converting to and from the two's-complement image is the identity.
proof fn lemma_i64_round(v: i64)
    ensures
        spec_u64_to_i64(crate::resp::spec_i64_to_u64(v)) == v,
{
}

/// Round trip: decoding the serialization of any well-formed value, with
/// anything at all after it, yields exactly that value and consumes
/// exactly its serialization.
pub proof fn lemma_resp_round_trip(v: ValueV, rest: Seq<u8>)
    requires
        val_wf(v),
    ensures
        dec_value(enc(v) + rest, 0) == Some((v, enc(v).len() as int)),
{
    let data = enc(v) + rest;
    assert(data.subrange(0, enc(v).len() as int) =~= enc(v));
    lemma_rt_value(data, 0, v);
}

/// The serialization of a well-formed value embedded at `pos` decodes to
/// that value.
proof fn lemma_rt_value(data: Seq<u8>, pos: int, v: ValueV)
    requires
        val_wf(v),
        0 <= pos,
        pos + enc(v).len() <= data.len(),
        data.subrange(pos, pos + enc(v).len() as int) == enc(v),
    ensures
        dec_value(data, pos) == Some((v, pos + enc(v).len())),
    decreases v,
{
    vstd::bytes::lemma_auto_spec_u32_to_from_le_bytes();
    vstd::bytes::lemma_auto_spec_u64_to_from_le_bytes();
    crate::resp::lemma_enc_len(v);
    let e = enc(v);
    assert forall|k: int| 0 <= k < e.len() implies data[pos + k] == e[k] by {
        assert(data.subrange(pos, pos + e.len() as int)[k] == data[pos + k]);
    }
    match v {
        ValueV::Nil => {
            assert(data[pos + 0] == e[0]);
            assert(data[pos] == SER_NIL);
        }
        ValueV::Error { code, msg } => {
            assert(data[pos + 0] == e[0]);
            assert(data[pos] == SER_ERR);
            let mlen32 = spec_u32_to_le_bytes(msg.len() as u32);
            assert forall|k: int| 0 <= k < 4 implies #[trigger] data.subrange(
                pos + 1,
                pos + 5,
            )[k] == spec_u32_to_le_bytes(code)[k] by {
                assert(e[1 + k] == spec_u32_to_le_bytes(code)[k]);
            }
            assert(data.subrange(pos + 1, pos + 5) =~= spec_u32_to_le_bytes(code));
            assert forall|k: int| 0 <= k < 4 implies #[trigger] data.subrange(
                pos + 5,
                pos + 9,
            )[k] == mlen32[k] by {
                assert(e[5 + k] == mlen32[k]);
            }
            assert(data.subrange(pos + 5, pos + 9) =~= mlen32);
            assert(spec_u32_from_le_bytes(data.subrange(pos + 5, pos + 9)) as int == msg.len());
            assert forall|k: int| 0 <= k < msg.len() implies #[trigger] data.subrange(
                pos + 9,
                pos + 9 + msg.len() as int,
            )[k] == msg[k] by {
                assert(e[9 + k] == msg[k]);
            }
            assert(data.subrange(pos + 9, pos + 9 + msg.len() as int) =~= msg);
        }
        ValueV::Str { data: d } => {
            assert(data[pos + 0] == e[0]);
            assert(data[pos] == SER_STR);
            let dlen32 = spec_u32_to_le_bytes(d.len() as u32);
            assert forall|k: int| 0 <= k < 4 implies #[trigger] data.subrange(
                pos + 1,
                pos + 5,
            )[k] == dlen32[k] by {
                assert(e[1 + k] == dlen32[k]);
            }
            assert(data.subrange(pos + 1, pos + 5) =~= dlen32);
            assert(spec_u32_from_le_bytes(data.subrange(pos + 1, pos + 5)) as int == d.len());
            assert forall|k: int| 0 <= k < d.len() implies #[trigger] data.subrange(
                pos + 5,
                pos + 5 + d.len() as int,
            )[k] == d[k] by {
                assert(e[5 + k] == d[k]);
            }
            assert(data.subrange(pos + 5, pos + 5 + d.len() as int) =~= d);
        }
        ValueV::Int { value } => {
            assert(data[pos + 0] == e[0]);
            assert(data[pos] == SER_INT);
            let bits = crate::resp::spec_i64_to_u64(value);
            assert forall|k: int| 0 <= k < 8 implies #[trigger] data.subrange(
                pos + 1,
                pos + 9,
            )[k] == vstd::bytes::spec_u64_to_le_bytes(bits)[k] by {
                assert(e[1 + k] == vstd::bytes::spec_u64_to_le_bytes(bits)[k]);
            }
            assert(data.subrange(pos + 1, pos + 9) =~= vstd::bytes::spec_u64_to_le_bytes(bits));
            assert(spec_u64_from_le_bytes(data.subrange(pos + 1, pos + 9)) == bits);
            lemma_i64_round(value);
        }
        ValueV::Arr { elems } => {
            assert(data[pos + 0] == e[0]);
            assert(data[pos] == SER_ARR);
            let n32 = spec_u32_to_le_bytes(elems.len() as u32);
            assert forall|k: int| 0 <= k < 4 implies #[trigger] data.subrange(
                pos + 1,
                pos + 5,
            )[k] == n32[k] by {
                assert(e[1 + k] == n32[k]);
            }
            assert(data.subrange(pos + 1, pos + 5) =~= n32);
            assert(spec_u32_from_le_bytes(data.subrange(pos + 1, pos + 5)) as int == elems.len());
            let body = enc_list(elems);
            assert forall|k: int| 0 <= k < body.len() implies #[trigger] data.subrange(
                pos + 5,
                pos + 5 + body.len() as int,
            )[k] == body[k] by {
                assert(e[5 + k] == body[k]);
            }
            assert(data.subrange(pos + 5, pos + 5 + body.len() as int) =~= body);
            lemma_rt_list(data, pos + 5, elems);
        }
    }
}

/// The serializations of well-formed values embedded back to back at
/// `pos` decode, in order, to those values.
proof fn lemma_rt_list(data: Seq<u8>, pos: int, vs: Seq<ValueV>)
    requires
        list_wf(vs),
        0 <= pos,
        pos + enc_list(vs).len() <= data.len(),
        data.subrange(pos, pos + enc_list(vs).len() as int) == enc_list(vs),
    ensures
        dec_list(data, pos, vs.len() as int) == Some((vs, pos + enc_list(vs).len())),
    decreases vs,
{
    if vs.len() == 0 {
        assert(dec_list(data, pos, 0) == Some((Seq::<ValueV>::empty(), pos)));
        assert(Seq::<ValueV>::empty() =~= vs);
    } else {
        let v0 = vs[0];
        let tail = vs.subrange(1, vs.len() as int);
        let e = enc_list(vs);
        let e0 = enc(v0);
        let erest = enc_list(tail);
        crate::resp::lemma_enc_len(v0);
        assert forall|k: int| 0 <= k < e.len() implies data[pos + k] == e[k] by {
            assert(data.subrange(pos, pos + e.len() as int)[k] == data[pos + k]);
        }
        assert forall|k: int| 0 <= k < e0.len() implies #[trigger] data.subrange(
            pos,
            pos + e0.len() as int,
        )[k] == e0[k] by {
            assert(e[k] == e0[k]);
        }
        assert(data.subrange(pos, pos + e0.len() as int) =~= e0);
        lemma_rt_value(data, pos, v0);
        let p2 = pos + e0.len() as int;
        assert forall|k: int| 0 <= k < erest.len() implies #[trigger] data.subrange(
            p2,
            p2 + erest.len() as int,
        )[k] == erest[k] by {
            assert(e[e0.len() + k] == erest[k]);
            assert(data[p2 + k] == e[e0.len() + k]);
        }
        assert(data.subrange(p2, p2 + erest.len() as int) =~= erest);
        lemma_rt_list(data, p2, tail);
        assert(seq![v0] + tail =~= vs);
    }
}

/// One display token of a decoded response.
#[derive(PartialEq, Eq, Debug)]
pub enum Token {
    Nil,
    Error { code: u32, msg: Vec<u8> },
    Str { data: Vec<u8> },
    Int { value: i64 },
    ArrStart { len: u32 },
    ArrEnd,
}

/// The mathematical shape of a display token.
pub ghost enum TokenV {
    Nil,
    Error { code: u32, msg: Seq<u8> },
    Str { data: Seq<u8> },
    Int { value: i64 },
    ArrStart { len: u32 },
    ArrEnd,
}

/// The shape of one token.
pub open spec fn token_view(t: Token) -> TokenV {
    match t {
        Token::Nil => TokenV::Nil,
        Token::Error { code, msg } => TokenV::Error { code, msg: msg@ },
        Token::Str { data } => TokenV::Str { data: data@ },
        Token::Int { value } => TokenV::Int { value },
        Token::ArrStart { len } => TokenV::ArrStart { len },
        Token::ArrEnd => TokenV::ArrEnd,
    }
}

/// The shape of a token stream.
pub open spec fn toks_view(ts: Seq<Token>) -> Seq<TokenV> {
    ts.map_values(|t: Token| token_view(t))
}

/// The token rendering of one value.
pub open spec fn toks_of(v: ValueV) -> Seq<TokenV>
    decreases v,
{
    match v {
        ValueV::Nil => seq![TokenV::Nil],
        ValueV::Error { code, msg } => seq![TokenV::Error { code, msg }],
        ValueV::Str { data } => seq![TokenV::Str { data }],
        ValueV::Int { value } => seq![TokenV::Int { value }],
        ValueV::Arr { elems } => seq![TokenV::ArrStart { len: elems.len() as u32 }] + toks_list(
            elems,
        ) + seq![TokenV::ArrEnd],
    }
}

/// The token rendering of a list of values, in order.
pub open spec fn toks_list(vs: Seq<ValueV>) -> Seq<TokenV>
    decreases vs,
{
    if vs.len() == 0 {
        Seq::empty()
    } else {
        toks_of(vs[0]) + toks_list(vs.subrange(1, vs.len() as int))
    }
}

/// Rendering one more value appends its tokens.
proof fn lemma_toks_list_push(vs: Seq<ValueV>, v: ValueV)
    ensures
        toks_list(vs.push(v)) == toks_list(vs) + toks_of(v),
    decreases vs.len(),
{
    if vs.len() == 0 {
        assert(vs.push(v)[0] == v);
        assert(vs.push(v).subrange(1, 1) =~= Seq::<ValueV>::empty());
        assert(toks_list(Seq::<ValueV>::empty()) =~= Seq::<TokenV>::empty());
        assert(toks_list(vs.push(v)) == toks_of(v) + toks_list(Seq::<ValueV>::empty()));
        assert(toks_list(vs.push(v)) =~= toks_list(vs) + toks_of(v));
    } else {
        let tail = vs.subrange(1, vs.len() as int);
        lemma_toks_list_push(tail, v);
        assert(vs.push(v)[0] == vs[0]);
        assert(vs.push(v).subrange(1, vs.len() as int + 1) =~= tail.push(v));
        assert(toks_list(vs.push(v)) == toks_of(vs[0]) + toks_list(tail.push(v)));
        assert(toks_list(vs) == toks_of(vs[0]) + toks_list(tail));
        assert(toks_of(vs[0]) + (toks_list(tail) + toks_of(v)) =~= (toks_of(vs[0]) + toks_list(
            tail,
        )) + toks_of(v));
    }
}

/// Glue for loop invariants: values already decoded, prepended to the
/// outcome of decoding the rest.
pub open spec fn cons_list(pre: Seq<ValueV>, rest: Option<(Seq<ValueV>, int)>) -> Option<
    (Seq<ValueV>, int),
> {
    match rest {
        Some((vs, end)) => Some((pre + vs, end)),
        None => None,
    }
}

/// Decode one tagged value at `pos`, appending its display tokens to
/// `out`.  Returns the position just past the value; fails exactly when
/// `dec_value` does.
#[verifier::loop_isolation(false)]
pub fn on_response(data: &[u8], pos: usize, out: &mut Vec<Token>) -> (r: Result<usize, ()>)
    requires
        pos <= data@.len(),
    ensures
        match r {
            Ok(end) => {
                &&& pos < end <= data@.len()
                &&& exists|v: ValueV| (#[trigger] dec_ok(data@, pos as int, v, end as int))
                    && toks_view(final(out)@) == toks_view(old(out)@) + toks_of(v)
            },
            Err(_) => dec_value(data@, pos as int) is None,
        },
    decreases data@.len() - pos,
{
    if pos >= data.len() {
        return Err(());
    }
    let tag = data[pos];
    if tag == SER_NIL {
        out.push(Token::Nil);
        proof {
            let v = ValueV::Nil;
            assert(dec_ok(data@, pos as int, v, pos as int + 1));
            assert(toks_view(out@) =~= toks_view(old(out)@) + toks_of(v));
        }
        return Ok(pos + 1);
    } else if tag == SER_ERR {
        if data.len() - pos < 9 {
            return Err(());
        }
        let code = u32_from_le_bytes(slice_subrange(data, pos + 1, pos + 5));
        let mlen = u32_from_le_bytes(slice_subrange(data, pos + 5, pos + 9)) as usize;
        if data.len() - (pos + 9) < mlen {
            return Err(());
        }
        let msg = slice_to_vec(slice_subrange(data, pos + 9, pos + 9 + mlen));
        let ghost v = ValueV::Error { code, msg: msg@ };
        out.push(Token::Error { code, msg });
        proof {
            assert(dec_ok(data@, pos as int, v, pos as int + 9 + mlen as int));
            assert(toks_view(out@) =~= toks_view(old(out)@) + toks_of(v));
        }
        return Ok(pos + 9 + mlen);
    } else if tag == SER_STR {
        if data.len() - pos < 5 {
            return Err(());
        }
        let slen = u32_from_le_bytes(slice_subrange(data, pos + 1, pos + 5)) as usize;
        if data.len() - (pos + 5) < slen {
            return Err(());
        }
        let s = slice_to_vec(slice_subrange(data, pos + 5, pos + 5 + slen));
        let ghost v = ValueV::Str { data: s@ };
        out.push(Token::Str { data: s });
        proof {
            assert(dec_ok(data@, pos as int, v, pos as int + 5 + slen as int));
            assert(toks_view(out@) =~= toks_view(old(out)@) + toks_of(v));
        }
        return Ok(pos + 5 + slen);
    } else if tag == SER_INT {
        if data.len() - pos < 9 {
            return Err(());
        }
        let u = u64_from_le_bytes(slice_subrange(data, pos + 1, pos + 9));
        let value = u64_to_i64(u);
        let ghost v = ValueV::Int { value };
        out.push(Token::Int { value });
        proof {
            assert(dec_ok(data@, pos as int, v, pos as int + 9));
            assert(toks_view(out@) =~= toks_view(old(out)@) + toks_of(v));
        }
        return Ok(pos + 9);
    } else if tag == SER_ARR {
        if data.len() - pos < 5 {
            return Err(());
        }
        let n = u32_from_le_bytes(slice_subrange(data, pos + 1, pos + 5));
        out.push(Token::ArrStart { len: n });
        let ghost start = seq![TokenV::ArrStart { len: n }];
        proof {
            assert(toks_view(out@) =~= toks_view(old(out)@) + start);
        }
        let mut p: usize = pos + 5;
        let mut i: u32 = 0;
        let ghost mut vs = Seq::<ValueV>::empty();
        proof {
            assert(toks_list(vs) =~= Seq::<TokenV>::empty());
            assert(toks_view(out@) =~= toks_view(old(out)@) + start + toks_list(vs));
            assert(cons_list(vs, dec_list(data@, p as int, n as int)) == dec_list(
                data@,
                pos as int + 5,
                n as int,
            )) by {
                match dec_list(data@, pos as int + 5, n as int) {
                    Some((vs2, end)) => {
                        assert(Seq::<ValueV>::empty() + vs2 =~= vs2);
                    }
                    None => {}
                }
            }
        }
        while i < n
            invariant
                pos + 5 <= p <= data@.len(),
                0 <= i <= n,
                vs.len() == i,
                toks_view(out@) == toks_view(old(out)@) + start + toks_list(vs),
                cons_list(vs, dec_list(data@, p as int, (n - i) as int)) == dec_list(
                    data@,
                    pos as int + 5,
                    n as int,
                ),
            decreases n - i,
        {
            let sub = on_response(data, p, out);
            match sub {
                Ok(p2) => {
                    proof {
                        let v = choose|v: ValueV| (#[trigger] dec_ok(data@, p as int, v, p2 as int))
                            && toks_view(out@) == toks_view(old(out)@) + start + toks_list(vs)
                            + toks_of(v);
                        lemma_toks_list_push(vs, v);
                        assert(dec_list(data@, p as int, (n - i) as int) == cons_list(
                            seq![v],
                            dec_list(data@, p2 as int, (n - i - 1) as int),
                        ));
                        assert(cons_list(vs, cons_list(seq![v], dec_list(data@, p2 as int, (n - i
                            - 1) as int))) == cons_list(vs.push(v), dec_list(data@, p2 as int, (n
                            - i - 1) as int))) by {
                            match dec_list(data@, p2 as int, (n - i - 1) as int) {
                                Some((vs2, end)) => {
                                    assert(vs + (seq![v] + vs2) =~= vs.push(v) + vs2);
                                }
                                None => {}
                            }
                        }
                        vs = vs.push(v);
                        assert(toks_view(out@) =~= toks_view(old(out)@) + start + toks_list(vs));
                    }
                    p = p2;
                    i = i + 1;
                }
                Err(_) => {
                    proof {
                        assert(dec_list(data@, pos as int + 5, n as int) is None);
                        assert(dec_value(data@, pos as int) is None);
                    }
                    return Err(());
                }
            }
        }
        let ghost before_end = out@;
        out.push(Token::ArrEnd);
        proof {
            let v = ValueV::Arr { elems: vs };
            assert(dec_list(data@, p as int, 0) == Some((Seq::<ValueV>::empty(), p as int)));
            assert(vs + Seq::<ValueV>::empty() =~= vs);
            assert(dec_list(data@, pos as int + 5, n as int) == Some((vs, p as int)));
            assert(vs.len() as u32 == n);
            assert(dec_ok(data@, pos as int, v, p as int));
            assert(toks_view(out@) =~= toks_view(before_end) + seq![TokenV::ArrEnd]);
            assert(toks_of(v) == seq![TokenV::ArrStart { len: n }] + toks_list(vs) + seq![
                TokenV::ArrEnd,
            ]);
            assert(toks_view(out@) =~= toks_view(old(out)@) + toks_of(v));
        }
        return Ok(p);
    } else {
        return Err(());
    }
}

/// Decode a whole response payload into display tokens.  Succeeds exactly
/// when the payload is one well-formed tagged value with nothing trailing.
pub fn decode_response(data: &[u8]) -> (r: Result<Vec<Token>, ()>)
    ensures
        match r {
            Ok(toks) => exists|v: ValueV| (#[trigger] dec_ok(data@, 0, v, data@.len() as int))
                && toks_view(toks@) == toks_of(v),
            Err(_) => match dec_value(data@, 0) {
                Some((v, end)) => end != data@.len(),
                None => true,
            },
        },
{
    let mut out: Vec<Token> = Vec::new();
    let res = on_response(data, 0, &mut out);
    match res {
        Ok(end) => {
            if end == data.len() {
                proof {
                    assert(toks_view(Seq::<Token>::empty()) =~= Seq::<TokenV>::empty());
                    let v = choose|v: ValueV| (#[trigger] dec_ok(data@, 0, v, end as int))
                        && toks_view(out@) == toks_view(Seq::<Token>::empty()) + toks_of(v);
                    assert(toks_view(out@) =~= toks_of(v));
                }
                Ok(out)
            } else {
                Err(())
            }
        }
        Err(_) => Err(()),
    }
}

} // verus!
