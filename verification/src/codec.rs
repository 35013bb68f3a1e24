//! Request framing: encoding an argument list into a length-prefixed frame
//! and parsing a frame payload back into the argument list.
//!
//! A request frame is `total_len: u32 LE` followed by `total_len` payload
//! bytes.  The payload is `nargs: u32 LE`, then for each argument
//! `arg_len: u32 LE` followed by `arg_len` bytes.

use vstd::prelude::*;
use vstd::bytes::spec_u32_to_le_bytes;
use vstd::bytes::spec_u32_from_le_bytes;
use vstd::bytes::lemma_auto_spec_u32_to_from_le_bytes;
use vstd::bytes::u32_from_le_bytes;
use vstd::bytes::u32_to_le_bytes;
use vstd::slice::slice_subrange;
use vstd::slice::slice_to_vec;
use crate::K_MAX_MSG;
use crate::K_MAX_ARGS;

verus! {

/// Concatenation of `arg_len: u32 LE` + argument bytes, over all arguments.
pub open spec fn spec_enc_args(args: Seq<Seq<u8>>) -> Seq<u8>
    decreases args.len(),
{
    if args.len() == 0 {
        Seq::empty()
    } else {
        spec_u32_to_le_bytes(args[0].len() as u32) + args[0] + spec_enc_args(args.skip(1))
    }
}

/// The full request payload: `nargs: u32 LE` followed by the encoded arguments.
pub open spec fn spec_req_payload(args: Seq<Seq<u8>>) -> Seq<u8> {
    spec_u32_to_le_bytes(args.len() as u32) + spec_enc_args(args)
}

/// Number of bytes the encoded arguments occupy (4 bytes of length prefix each).
pub open spec fn spec_args_len(args: Seq<Seq<u8>>) -> int
    decreases args.len(),
{
    if args.len() == 0 {
        0
    } else {
        4 + args[0].len() + spec_args_len(args.skip(1))
    }
}

pub proof fn lemma_args_len_nonneg(args: Seq<Seq<u8>>)
    ensures
        spec_args_len(args) >= 0,
    decreases args.len(),
{
    if args.len() > 0 {
        lemma_args_len_nonneg(args.skip(1));
    }
}

pub proof fn lemma_enc_args_len(args: Seq<Seq<u8>>)
    ensures
        spec_enc_args(args).len() == spec_args_len(args),
    decreases args.len(),
{
    lemma_auto_spec_u32_to_from_le_bytes();
    if args.len() > 0 {
        lemma_enc_args_len(args.skip(1));
    }
}

/// Appending one more argument to the encoded prefix.
pub proof fn lemma_enc_args_take(args: Seq<Seq<u8>>, i: int)
    requires
        0 <= i < args.len(),
    ensures
        spec_enc_args(args.take(i + 1)) == spec_enc_args(args.take(i))
            + spec_u32_to_le_bytes(args[i].len() as u32) + args[i],
        spec_args_len(args.take(i + 1)) == spec_args_len(args.take(i)) + 4 + args[i].len(),
    decreases i,
{
    if i == 0 {
        assert(args.take(0) =~= Seq::empty());
        assert(args.take(1).skip(1) =~= Seq::empty());
        assert(args.take(1)[0] == args[0]);
        assert(spec_enc_args(args.take(1)) =~= spec_u32_to_le_bytes(args[0].len() as u32) + args[0]);
    } else {
        lemma_enc_args_take(args.skip(1), i - 1);
        assert(args.take(i + 1).skip(1) =~= args.skip(1).take(i));
        assert(args.take(i).skip(1) =~= args.skip(1).take(i - 1));
        assert(args.take(i + 1)[0] == args[0]);
        assert(args.take(i)[0] == args[0]);
        assert(args.skip(1)[i - 1] == args[i]);
        assert(spec_enc_args(args.take(i + 1)) =~= spec_enc_args(args.take(i))
            + spec_u32_to_le_bytes(args[i].len() as u32) + args[i]);
    }
}

/// The encoded length of a prefix never exceeds that of the whole list.
pub proof fn lemma_args_len_take_le(args: Seq<Seq<u8>>, i: int)
    requires
        0 <= i <= args.len(),
    ensures
        spec_args_len(args.take(i)) <= spec_args_len(args),
    decreases args.len() - i,
{
    if i == args.len() {
        assert(args.take(i) =~= args);
    } else {
        lemma_enc_args_take(args, i);
        lemma_args_len_take_le(args, i + 1);
    }
}

/// Encode an argument list as a full request frame (length prefix included).
///
/// Returns `None` exactly when the request would not fit in a frame, that is
/// when `4 + spec_args_len(args)` exceeds `K_MAX_MSG`.
pub fn encode_req(args: &Vec<Vec<u8>>) -> (r: Option<Vec<u8>>)
    ensures
        match r {
            Some(buf) => {
                &&& 4 + spec_args_len(args.deep_view()) <= K_MAX_MSG
                &&& buf@ == spec_u32_to_le_bytes(
                    spec_req_payload(args.deep_view()).len() as u32,
                ) + spec_req_payload(args.deep_view())
            },
            None => 4 + spec_args_len(args.deep_view()) > K_MAX_MSG,
        },
{
    let ghost dv = args.deep_view();
    let mut total: usize = 4;
    let mut i: usize = 0;
    proof {
        assert(dv.take(0) =~= Seq::empty());
    }
    while i < args.len()
        invariant
            0 <= i <= args.len(),
            dv == args.deep_view(),
            total == 4 + spec_args_len(dv.take(i as int)),
            total <= K_MAX_MSG,
        decreases args.len() - i,
    {
        let alen = args[i].len();
        proof {
            assert(dv[i as int] == args@[i as int]@);
            lemma_enc_args_take(dv, i as int);
        }
        if alen > K_MAX_MSG || total + 4 + alen > K_MAX_MSG {
            proof {
                lemma_args_len_take_le(dv, i + 1);
            }
            return None;
        }
        total = total + 4 + alen;
        i = i + 1;
    }
    proof {
        assert(dv.take(args.len() as int) =~= dv);
    }
    // total == 4 + spec_args_len(dv) <= K_MAX_MSG: the request fits.
    let n = args.len();
    let mut buf: Vec<u8> = Vec::new();
    let mut tb = u32_to_le_bytes(total as u32);
    buf.append(&mut tb);
    let mut nb = u32_to_le_bytes(n as u32);
    buf.append(&mut nb);
    proof {
        lemma_args_len_nonneg(dv);
        assert(4 * dv.len() <= spec_args_len(dv)) by {
            lemma_args_count_le(dv);
        }
    }
    let mut i: usize = 0;
    while i < args.len()
        invariant
            0 <= i <= args.len(),
            dv == args.deep_view(),
            buf@ == spec_u32_to_le_bytes(total as u32) + spec_u32_to_le_bytes(n as u32)
                + spec_enc_args(dv.take(i as int)),
            n == args.len(),
            total <= K_MAX_MSG,
        decreases args.len() - i,
    {
        proof {
            assert(dv[i as int] == args@[i as int]@);
            lemma_enc_args_take(dv, i as int);
        }
        let mut lb = u32_to_le_bytes(args[i].len() as u32);
        buf.append(&mut lb);
        buf.extend_from_slice(args[i].as_slice());
        i = i + 1;
    }
    proof {
        assert(dv.take(args.len() as int) =~= dv);
        lemma_enc_args_len(dv);
        assert(buf@ == spec_u32_to_le_bytes(spec_req_payload(dv).len() as u32)
            + spec_req_payload(dv));
    }
    Some(buf)
}

/// Each argument contributes at least its 4-byte length prefix.
pub proof fn lemma_args_count_le(args: Seq<Seq<u8>>)
    ensures
        4 * args.len() <= spec_args_len(args),
    decreases args.len(),
{
    if args.len() > 0 {
        lemma_args_count_le(args.skip(1));
    }
}

/// Parse the tail of a payload: `n` arguments starting at byte `pos`,
/// with nothing allowed to trail the final argument.
pub open spec fn spec_parse_args(p: Seq<u8>, pos: int, n: nat) -> Option<Seq<Seq<u8>>>
    decreases n,
{
    if n == 0 {
        if pos == p.len() {
            Some(Seq::empty())
        } else {
            None
        }
    } else if pos + 4 <= p.len() {
        let sz = spec_u32_from_le_bytes(p.subrange(pos, pos + 4)) as int;
        if pos + 4 + sz <= p.len() {
            match spec_parse_args(p, pos + 4 + sz, (n - 1) as nat) {
                Some(rest) => Some(seq![p.subrange(pos + 4, pos + 4 + sz)] + rest),
                None => None,
            }
        } else {
            None
        }
    } else {
        None
    }
}

/// Parse a whole request payload into its argument list.
pub open spec fn spec_parse_req(p: Seq<u8>) -> Option<Seq<Seq<u8>>> {
    if p.len() < 4 {
        None
    } else {
        let n = spec_u32_from_le_bytes(p.subrange(0, 4));
        if n as int > K_MAX_ARGS as int {
            None
        } else {
            spec_parse_args(p, 4, n as nat)
        }
    }
}

/// Glue for loop invariants: prepend an already-parsed prefix to the result
/// of parsing the remainder.
pub open spec fn spec_cons_all(pre: Seq<Seq<u8>>, rest: Option<Seq<Seq<u8>>>) -> Option<
    Seq<Seq<u8>>,
> {
    match rest {
        Some(r) => Some(pre + r),
        None => None,
    }
}

/// Parse a request payload.  Succeeds exactly when the payload is a
/// well-formed request per `spec_parse_req`; any violation (short header,
/// too many arguments, an argument past the end, trailing bytes) yields
/// `None`.
pub fn parse_req(payload: &[u8]) -> (r: Option<Vec<Vec<u8>>>)
    ensures
        match r {
            Some(cmd) => spec_parse_req(payload@) == Some(cmd.deep_view()),
            None => spec_parse_req(payload@) is None,
        },
{
    if payload.len() < 4 {
        return None;
    }
    let n = u32_from_le_bytes(slice_subrange(payload, 0, 4));
    if n as usize > K_MAX_ARGS {
        return None;
    }
    let mut cmd: Vec<Vec<u8>> = Vec::new();
    let mut pos: usize = 4;
    let mut remaining: u32 = n;
    proof {
        assert(cmd.deep_view() =~= Seq::<Seq<u8>>::empty());
        assert(spec_parse_req(payload@) == spec_cons_all(
            cmd.deep_view(),
            spec_parse_args(payload@, pos as int, remaining as nat),
        )) by {
            match spec_parse_args(payload@, 4, n as nat) {
                Some(rest) => {
                    assert(Seq::<Seq<u8>>::empty() + rest =~= rest);
                }
                None => {}
            }
        }
    }
    while remaining > 0
        invariant
            4 <= pos <= payload@.len(),
            spec_parse_req(payload@) == spec_cons_all(
                cmd.deep_view(),
                spec_parse_args(payload@, pos as int, remaining as nat),
            ),
        decreases remaining,
    {
        if payload.len() - pos < 4 {
            return None;
        }
        let sz = u32_from_le_bytes(slice_subrange(payload, pos, pos + 4)) as usize;
        if payload.len() - (pos + 4) < sz {
            return None;
        }
        let arg = slice_to_vec(slice_subrange(payload, pos + 4, pos + 4 + sz));
        let ghost old_cmd = cmd.deep_view();
        cmd.push(arg);
        proof {
            assert(arg.deep_view() =~= payload@.subrange(
                pos as int + 4,
                pos as int + 4 + sz as int,
            ));
            assert(cmd.deep_view() =~= old_cmd + seq![payload@.subrange(
                pos as int + 4,
                pos as int + 4 + sz as int,
            )]);
            match spec_parse_args(payload@, pos as int + 4 + sz as int, (remaining - 1) as nat) {
                Some(rest) => {
                    assert(old_cmd + (seq![payload@.subrange(
                        pos as int + 4,
                        pos as int + 4 + sz as int,
                    )] + rest) =~= cmd.deep_view() + rest);
                }
                None => {}
            }
        }
        pos = pos + 4 + sz;
        remaining = remaining - 1;
    }
    if pos == payload.len() {
        proof {
            assert(cmd.deep_view() + Seq::<Seq<u8>>::empty() =~= cmd.deep_view());
        }
        Some(cmd)
    } else {
        None
    }
}

/// Round trip: parsing the encoding of any argument list that fits in a
/// frame gives back exactly that argument list.
pub proof fn lemma_req_round_trip(args: Seq<Seq<u8>>)
    requires
        4 + spec_args_len(args) <= K_MAX_MSG,
    ensures
        spec_parse_req(spec_req_payload(args)) == Some(args),
{
    lemma_auto_spec_u32_to_from_le_bytes();
    lemma_enc_args_len(args);
    lemma_args_count_le(args);
    lemma_args_len_nonneg(args);
    let p = spec_req_payload(args);
    assert(p.subrange(0, 4) =~= spec_u32_to_le_bytes(args.len() as u32));
    assert(args.len() < K_MAX_ARGS);
    assert(p.subrange(4, p.len() as int) =~= spec_enc_args(args));
    lemma_parse_enc_args(p, 4, args);
}

/// Arguments encoded at the tail of a payload parse back to themselves.
proof fn lemma_parse_enc_args(p: Seq<u8>, pos: int, args: Seq<Seq<u8>>)
    requires
        0 <= pos <= p.len(),
        p.subrange(pos, p.len() as int) == spec_enc_args(args),
        spec_args_len(args) <= K_MAX_MSG,
    ensures
        spec_parse_args(p, pos, args.len()) == Some(args),
    decreases args.len(),
{
    lemma_auto_spec_u32_to_from_le_bytes();
    lemma_enc_args_len(args);
    lemma_args_len_nonneg(args);
    if args.len() == 0 {
        assert(pos == p.len());
    } else {
        let a0 = args[0];
        let rest = args.skip(1);
        lemma_enc_args_len(rest);
        lemma_args_len_nonneg(rest);
        assert(a0.len() <= K_MAX_MSG);
        let e = spec_enc_args(args);
        assert forall|k: int| 0 <= k < e.len() implies p[pos + k] == e[k] by {
            assert(p.subrange(pos, p.len() as int)[k] == p[pos + k]);
        }
        assert forall|k: int| 0 <= k < 4 implies #[trigger] p.subrange(pos, pos + 4)[k]
            == spec_u32_to_le_bytes(a0.len() as u32)[k] by {
            assert(e[k] == spec_u32_to_le_bytes(a0.len() as u32)[k]);
        }
        assert(p.subrange(pos, pos + 4) =~= spec_u32_to_le_bytes(a0.len() as u32));
        let sz = spec_u32_from_le_bytes(p.subrange(pos, pos + 4)) as int;
        assert(sz == a0.len());
        assert forall|k: int| 0 <= k < sz implies p.subrange(pos + 4, pos + 4 + sz)[k]
            == a0[k] by {
            assert(e[4 + k] == a0[k]);
            assert(p[pos + 4 + k] == e[4 + k]);
        }
        assert(p.subrange(pos + 4, pos + 4 + sz) =~= a0);
        assert forall|k: int| 0 <= k < spec_enc_args(rest).len() implies p.subrange(
            pos + 4 + sz,
            p.len() as int,
        )[k] == spec_enc_args(rest)[k] by {
            assert(e[4 + sz + k] == spec_enc_args(rest)[k]);
            assert(p[pos + 4 + sz + k] == e[4 + sz + k]);
        }
        assert(p.subrange(pos + 4 + sz, p.len() as int) =~= spec_enc_args(rest));
        lemma_parse_enc_args(p, pos + 4 + sz, rest);
        assert(seq![a0] + rest =~= args);
    }
}

} // verus!
