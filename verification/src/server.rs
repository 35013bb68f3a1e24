//! The command dispatcher: turns a parsed argument list into an effect on
//! the keyspace and the serialized reply.
//!
//! Verb matching is ASCII case-insensitive on argument 0.  A serialized
//! reply larger than `K_MAX_MSG - 4` bytes is discarded and replaced with
//! an error, so every reply fits in one frame.

use vstd::prelude::*;
use crate::K_MAX_MSG;
use crate::hashtable::HMap;
use crate::hashtable::HNode;
use crate::hashtable::hash_key;
use crate::hashtable::hmap_wf;
use crate::hashtable::spec_total_size;
use crate::hashtable::clone_bytes;
use crate::resp::ValueV;
use crate::resp::enc;
use crate::resp::enc_list;
use crate::resp::lemma_enc_len;
use crate::resp::lemma_enc_list_take;
use crate::resp::out_nil;
use crate::resp::out_str;
use crate::resp::out_int;
use crate::resp::out_err;
use crate::resp::out_arr;
use crate::resp::msg_unknown_cmd;
use crate::resp::msg_too_big;
use crate::resp::spec_msg_unknown_cmd;
use crate::resp::spec_too_big_reply;
use crate::resp::RES_ERR;
use crate::resp::RES_NX;

verus! {

/// ASCII lower-casing of one byte.
pub open spec fn spec_lower(b: u8) -> u8 {
    if 65 <= b <= 90 {
        (b + 32) as u8
    } else {
        b
    }
}

/// Case-insensitive equality of two byte strings.
pub open spec fn spec_ieq(a: Seq<u8>, b: Seq<u8>) -> bool {
    a.len() == b.len() && (forall|i: int| 0 <= i < a.len()
        ==> spec_lower(a[i]) == spec_lower(b[i]))
}

/// ASCII lower-casing of one byte.
fn lower_byte(b: u8) -> (r: u8)
    ensures
        r == spec_lower(b),
{
    if b >= 65 && b <= 90 {
        b + 32
    } else {
        b
    }
}

/// Does the word match the command verb, ASCII case notwithstanding?
pub fn cmd_is(word: &[u8], cmd: &[u8]) -> (r: bool)
    ensures
        r == spec_ieq(word@, cmd@),
{
    if word.len() != cmd.len() {
        return false;
    }
    let mut i: usize = 0;
    while i < word.len()
        invariant
            0 <= i <= word@.len(),
            word@.len() == cmd@.len(),
            forall|j: int| 0 <= j < i ==> spec_lower(word@[j]) == spec_lower(cmd@[j]),
        decreases word@.len() - i,
    {
        if lower_byte(word[i]) != lower_byte(cmd[i]) {
            return false;
        }
        i = i + 1;
    }
    true
}

/// The verb "get".
pub open spec fn spec_verb_get() -> Seq<u8> {
    seq![103u8, 101u8, 116u8]
}

/// The verb "set".
pub open spec fn spec_verb_set() -> Seq<u8> {
    seq![115u8, 101u8, 116u8]
}

/// The verb "del".
pub open spec fn spec_verb_del() -> Seq<u8> {
    seq![100u8, 101u8, 108u8]
}

/// The verb "keys".
pub open spec fn spec_verb_keys() -> Seq<u8> {
    seq![107u8, 101u8, 121u8, 115u8]
}

/// "get" as bytes.
fn verb_get() -> (r: Vec<u8>)
    ensures
        r@ == spec_verb_get(),
{
    let mut v: Vec<u8> = Vec::new();
    v.push(103);
    v.push(101);
    v.push(116);
    proof {
        assert(v@ =~= spec_verb_get());
    }
    v
}

/// "set" as bytes.
fn verb_set() -> (r: Vec<u8>)
    ensures
        r@ == spec_verb_set(),
{
    let mut v: Vec<u8> = Vec::new();
    v.push(115);
    v.push(101);
    v.push(116);
    proof {
        assert(v@ =~= spec_verb_set());
    }
    v
}

/// "del" as bytes.
fn verb_del() -> (r: Vec<u8>)
    ensures
        r@ == spec_verb_del(),
{
    let mut v: Vec<u8> = Vec::new();
    v.push(100);
    v.push(101);
    v.push(108);
    proof {
        assert(v@ =~= spec_verb_del());
    }
    v
}

/// "keys" as bytes.
fn verb_keys() -> (r: Vec<u8>)
    ensures
        r@ == spec_verb_keys(),
{
    let mut v: Vec<u8> = Vec::new();
    v.push(107);
    v.push(101);
    v.push(121);
    v.push(115);
    proof {
        assert(v@ =~= spec_verb_keys());
    }
    v
}

/// The command is `KEYS`.
pub open spec fn is_cmd_keys(cmd: Seq<Seq<u8>>) -> bool {
    cmd.len() == 1 && spec_ieq(cmd[0], spec_verb_keys())
}

/// The command is `GET k`.
pub open spec fn is_cmd_get(cmd: Seq<Seq<u8>>) -> bool {
    cmd.len() == 2 && spec_ieq(cmd[0], spec_verb_get())
}

/// The command is `SET k v`.
pub open spec fn is_cmd_set(cmd: Seq<Seq<u8>>) -> bool {
    cmd.len() == 3 && spec_ieq(cmd[0], spec_verb_set())
}

/// The command is `DEL k`.
pub open spec fn is_cmd_del(cmd: Seq<Seq<u8>>) -> bool {
    cmd.len() == 2 && spec_ieq(cmd[0], spec_verb_del())
}

/// What a command does to the keyspace.
pub open spec fn apply_cmd(m: Map<Seq<u8>, Seq<u8>>, cmd: Seq<Seq<u8>>) -> Map<Seq<u8>, Seq<u8>> {
    if is_cmd_set(cmd) {
        m.insert(cmd[1], cmd[2])
    } else if is_cmd_del(cmd) {
        m.remove(cmd[1])
    } else {
        m
    }
}

/// The reply to any command but `KEYS`, before the size guard.
pub open spec fn reply_of(m: Map<Seq<u8>, Seq<u8>>, cmd: Seq<Seq<u8>>) -> ValueV {
    if is_cmd_get(cmd) {
        if m.dom().contains(cmd[1]) {
            ValueV::Str { data: m[cmd[1]] }
        } else {
            ValueV::Nil
        }
    } else if is_cmd_set(cmd) {
        ValueV::Nil
    } else if is_cmd_del(cmd) {
        ValueV::Int { value: if m.dom().contains(cmd[1]) { 1 } else { 0 } }
    } else {
        ValueV::Error { code: RES_ERR, msg: spec_msg_unknown_cmd() }
    }
}

/// A valid `KEYS` reply: an array of the bound keys, each once, as byte
/// strings, in any order.
pub open spec fn keys_reply(m: Map<Seq<u8>, Seq<u8>>, ks: Seq<Seq<u8>>, r: ValueV) -> bool {
    &&& ks.no_duplicates()
    &&& ks.to_set() == m.dom()
    &&& r == (ValueV::Arr { elems: ks.map_values(|k: Seq<u8>| ValueV::Str { data: k }) })
}

/// The acceptable replies to a command, before the size guard: exact for
/// everything but `KEYS`, whose enumeration order is unspecified.
pub open spec fn reply_rel(m: Map<Seq<u8>, Seq<u8>>, cmd: Seq<Seq<u8>>, r: ValueV) -> bool {
    if is_cmd_keys(cmd) {
        exists|ks: Seq<Seq<u8>>| #[trigger] keys_reply(m, ks, r)
    } else {
        r == reply_of(m, cmd)
    }
}

/// The size guard: a reply whose serialization does not fit in a frame is
/// replaced with the over-limit error.
pub open spec fn guard_reply(r: ValueV) -> ValueV {
    if enc(r).len() + 4 <= K_MAX_MSG {
        r
    } else {
        spec_too_big_reply()
    }
}

/// Serialized length of a list of byte strings as `STR` values.
pub open spec fn strs_enc_len(ks: Seq<Seq<u8>>) -> int
    decreases ks.len(),
{
    if ks.len() == 0 {
        0
    } else {
        5 + ks[0].len() + strs_enc_len(ks.subrange(1, ks.len() as int))
    }
}

/// The `STR`-list serialization is as long as `strs_enc_len` says.
proof fn lemma_strs_enc_len(ks: Seq<Seq<u8>>)
    ensures
        enc_list(ks.map_values(|k: Seq<u8>| ValueV::Str { data: k })).len() == strs_enc_len(ks),
        strs_enc_len(ks) >= 5 * ks.len(),
    decreases ks.len(),
{
    let es = ks.map_values(|k: Seq<u8>| ValueV::Str { data: k });
    if ks.len() == 0 {
    } else {
        let tail = ks.subrange(1, ks.len() as int);
        lemma_strs_enc_len(tail);
        assert(es.subrange(1, es.len() as int) =~= tail.map_values(
            |k: Seq<u8>| ValueV::Str { data: k },
        ));
        assert(es[0] == (ValueV::Str { data: ks[0] }));
        lemma_enc_len(es[0]);
    }
}

/// Each byte string in the list fits within the total serialized length.
proof fn lemma_strs_elem_le(ks: Seq<Seq<u8>>, i: int)
    requires
        0 <= i < ks.len(),
    ensures
        5 + ks[i].len() <= strs_enc_len(ks),
    decreases i,
{
    let tail = ks.subrange(1, ks.len() as int);
    lemma_strs_enc_len(ks);
    lemma_strs_enc_len(tail);
    if i == 0 {
    } else {
        lemma_strs_elem_le(tail, i - 1);
        assert(tail[i - 1] == ks[i]);
    }
}

/// Adding one more string to the prefix adds its `STR` length.
proof fn lemma_strs_take(ks: Seq<Seq<u8>>, i: int)
    requires
        0 <= i < ks.len(),
    ensures
        strs_enc_len(ks.take(i + 1)) == strs_enc_len(ks.take(i)) + 5 + ks[i].len(),
    decreases i,
{
    if i == 0 {
        assert(ks.take(0) =~= Seq::<Seq<u8>>::empty());
        assert(ks.take(1)[0] == ks[0]);
        assert(ks.take(1).subrange(1, 1) =~= Seq::<Seq<u8>>::empty());
    } else {
        let tail = ks.subrange(1, ks.len() as int);
        lemma_strs_take(tail, i - 1);
        assert(ks.take(i + 1).subrange(1, i + 1) =~= tail.take(i));
        assert(ks.take(i).subrange(1, i) =~= tail.take(i - 1));
        assert(ks.take(i + 1)[0] == ks[0]);
        assert(ks.take(i)[0] == ks[0]);
        assert(tail[i - 1] == ks[i]);
    }
}

/// A prefix never serializes longer than the whole list.
proof fn lemma_strs_take_le(ks: Seq<Seq<u8>>, i: int)
    requires
        0 <= i <= ks.len(),
    ensures
        strs_enc_len(ks.take(i)) <= strs_enc_len(ks),
    decreases ks.len() - i,
{
    if i == ks.len() {
        assert(ks.take(i) =~= ks);
    } else {
        lemma_strs_take(ks, i);
        lemma_strs_take_le(ks, i + 1);
    }
}

/// `GET k`: reply `STR value` if the key is bound, `NIL` otherwise.
pub fn do_get(map: &mut HMap, cmd: &Vec<Vec<u8>>, out: &mut Vec<u8>)
    requires
        hmap_wf(*old(map)),
        is_cmd_get(cmd.deep_view()),
    ensures
        hmap_wf(*final(map)),
        final(map)@ == old(map)@,
        spec_total_size(*final(map)) == spec_total_size(*old(map)),
        final(out)@ == old(out)@ + enc(guard_reply(reply_of(old(map)@, cmd.deep_view()))),
{
    let ghost r = reply_of(old(map)@, cmd.deep_view());
    proof {
        assert(cmd.deep_view()[1] == cmd@[1]@);
        lemma_enc_len(r);
    }
    let val = map.hm_lookup(cmd[1].as_slice());
    match val {
        None => {
            out_nil(out);
        }
        Some(v) => {
            if v.len() > K_MAX_MSG - 9 {
                out_err(out, RES_NX, msg_too_big().as_slice());
                proof {
                    lemma_enc_len(spec_too_big_reply());
                }
            } else {
                out_str(out, v.as_slice());
            }
        }
    }
}

/// `SET k v`: bind the key, replying `NIL`.
pub fn do_set(map: &mut HMap, cmd: &Vec<Vec<u8>>, out: &mut Vec<u8>)
    requires
        hmap_wf(*old(map)),
        is_cmd_set(cmd.deep_view()),
        spec_total_size(*old(map)) < usize::MAX,
    ensures
        hmap_wf(*final(map)),
        final(map)@ == old(map)@.insert(cmd.deep_view()[1], cmd.deep_view()[2]),
        spec_total_size(*final(map)) <= spec_total_size(*old(map)) + 1,
        final(out)@ == old(out)@ + enc(guard_reply(ValueV::Nil)),
{
    proof {
        assert(cmd.deep_view()[1] == cmd@[1]@);
        assert(cmd.deep_view()[2] == cmd@[2]@);
        lemma_enc_len(ValueV::Nil);
    }
    let key = clone_bytes(&cmd[1]);
    let value = clone_bytes(&cmd[2]);
    let h = hash_key(key.as_slice());
    map.hm_insert(HNode::new(h, key, value));
    out_nil(out);
}

/// `DEL k`: unbind the key, replying `INT 1` if it was bound, else `INT 0`.
pub fn do_del(map: &mut HMap, cmd: &Vec<Vec<u8>>, out: &mut Vec<u8>)
    requires
        hmap_wf(*old(map)),
        is_cmd_del(cmd.deep_view()),
    ensures
        hmap_wf(*final(map)),
        final(map)@ == old(map)@.remove(cmd.deep_view()[1]),
        spec_total_size(*final(map)) <= spec_total_size(*old(map)),
        final(out)@ == old(out)@ + enc(guard_reply(reply_of(old(map)@, cmd.deep_view()))),
{
    let ghost r = reply_of(old(map)@, cmd.deep_view());
    proof {
        assert(cmd.deep_view()[1] == cmd@[1]@);
        lemma_enc_len(r);
    }
    let removed = map.hm_remove(cmd[1].as_slice());
    if removed {
        out_int(out, 1);
    } else {
        out_int(out, 0);
    }
}

/// `KEYS`: reply an array of all bound keys, in unspecified order.
#[verifier::loop_isolation(false)]
pub fn do_keys(map: &HMap, out: &mut Vec<u8>)
    requires
        hmap_wf(*map),
    ensures
        exists|r: ValueV| (#[trigger] reply_rel(map@, seq![spec_verb_keys()], r)) && final(out)@
            == old(out)@ + enc(guard_reply(r)),
{
    let keys = map.hm_keys();
    let ghost ks = keys.deep_view();
    let ghost es = ks.map_values(|k: Seq<u8>| ValueV::Str { data: k });
    let ghost r = ValueV::Arr { elems: es };
    proof {
        assert(keys_reply(map@, ks, r));
        assert(reply_rel(map@, seq![spec_verb_keys()], r)) by {
            assert(is_cmd_keys(seq![spec_verb_keys()]));
        }
        lemma_enc_len(r);
        lemma_strs_enc_len(ks);
        assert(ks.take(0) =~= Seq::<Seq<u8>>::empty());
    }
    let limit = K_MAX_MSG - 4;
    let mut total: usize = 5;
    let mut i: usize = 0;
    while i < keys.len()
        invariant
            0 <= i <= ks.len(),
            ks == keys.deep_view(),
            total == 5 + strs_enc_len(ks.take(i as int)),
            total <= limit,
            limit == K_MAX_MSG - 4,
            out@ == old(out)@,
        decreases ks.len() - i,
    {
        let klen = keys[i].len();
        proof {
            assert(ks[i as int] == keys@[i as int]@);
            lemma_strs_take(ks, i as int);
        }
        if klen > limit || total + 5 + klen > limit {
            proof {
                lemma_strs_take_le(ks, i as int + 1);
                assert(enc(r).len() + 4 > K_MAX_MSG);
                lemma_enc_len(spec_too_big_reply());
            }
            out_err(out, RES_NX, msg_too_big().as_slice());
            return ;
        }
        total = total + 5 + klen;
        i = i + 1;
    }
    proof {
        assert(ks.take(ks.len() as int) =~= ks);
        assert(enc(r).len() + 4 <= K_MAX_MSG);
        assert(5 * ks.len() <= strs_enc_len(ks));
        assert(es.len() == ks.len());
    }
    out_arr(out, keys.len() as u32);
    let ghost header = out@;
    let mut i: usize = 0;
    while i < keys.len()
        invariant
            0 <= i <= ks.len(),
            ks == keys.deep_view(),
            es == ks.map_values(|k: Seq<u8>| ValueV::Str { data: k }),
            out@ == header + enc_list(es.take(i as int)),
            strs_enc_len(ks) <= K_MAX_MSG,
        decreases ks.len() - i,
    {
        proof {
            assert(ks[i as int] == keys@[i as int]@);
            lemma_strs_elem_le(ks, i as int);
            lemma_strs_enc_len(ks);
            lemma_enc_list_take(es, i as int);
            assert(es[i as int] == (ValueV::Str { data: ks[i as int] }));
            assert(es.take(0) =~= Seq::<ValueV>::empty());
        }
        out_str(out, keys[i].as_slice());
        i = i + 1;
    }
    proof {
        assert(es.take(es.len() as int) =~= es);
        assert(out@ =~= old(out)@ + enc(guard_reply(r)));
    }
}

/// The command `GET k`.
pub open spec fn spec_cmd_get(k: Seq<u8>) -> Seq<Seq<u8>> {
    seq![spec_verb_get(), k]
}

/// The command `SET k v`.
pub open spec fn spec_cmd_set(k: Seq<u8>, v: Seq<u8>) -> Seq<Seq<u8>> {
    seq![spec_verb_set(), k, v]
}

/// The command `DEL k`.
pub open spec fn spec_cmd_del(k: Seq<u8>) -> Seq<Seq<u8>> {
    seq![spec_verb_del(), k]
}

/// The four verbs are pairwise distinct, case notwithstanding.
proof fn lemma_verbs_distinct()
    ensures
        !spec_ieq(spec_verb_del(), spec_verb_get()),
        !spec_ieq(spec_verb_set(), spec_verb_get()),
        !spec_ieq(spec_verb_get(), spec_verb_del()),
        !spec_ieq(spec_verb_set(), spec_verb_del()),
{
    assert(spec_lower(spec_verb_del()[0]) == 100u8);
    assert(spec_lower(spec_verb_get()[0]) == 103u8);
    assert(spec_lower(spec_verb_set()[0]) == 115u8);
}

/// For every key and value, `SET k v` followed by `GET k` replies the
/// value just bound.
pub proof fn lemma_set_then_get(m: Map<Seq<u8>, Seq<u8>>, k: Seq<u8>, v: Seq<u8>)
    ensures
        reply_of(apply_cmd(m, spec_cmd_set(k, v)), spec_cmd_get(k)) == (ValueV::Str { data: v }),
{
    assert(is_cmd_set(spec_cmd_set(k, v)));
    assert(is_cmd_get(spec_cmd_get(k)));
}

/// For every key, `GET k` on an empty keyspace, or right after `DEL k`,
/// replies `NIL`.
pub proof fn lemma_get_missing(m: Map<Seq<u8>, Seq<u8>>, k: Seq<u8>)
    ensures
        reply_of(Map::<Seq<u8>, Seq<u8>>::empty(), spec_cmd_get(k)) == ValueV::Nil,
        reply_of(apply_cmd(m, spec_cmd_del(k)), spec_cmd_get(k)) == ValueV::Nil,
{
    lemma_verbs_distinct();
    assert(is_cmd_get(spec_cmd_get(k)));
    assert(is_cmd_del(spec_cmd_del(k)));
    assert(!is_cmd_set(spec_cmd_del(k)));
    assert(!Map::<Seq<u8>, Seq<u8>>::empty().dom().contains(k));
}

/// For every key, after any `SET k v` a first `DEL k` replies `INT 1` and
/// a second `DEL k` replies `INT 0`.
pub proof fn lemma_del_semantics(m: Map<Seq<u8>, Seq<u8>>, k: Seq<u8>, v: Seq<u8>)
    ensures
        reply_of(apply_cmd(m, spec_cmd_set(k, v)), spec_cmd_del(k)) == (ValueV::Int { value: 1 }),
        reply_of(
            apply_cmd(apply_cmd(m, spec_cmd_set(k, v)), spec_cmd_del(k)),
            spec_cmd_del(k),
        ) == (ValueV::Int { value: 0 }),
{
    lemma_verbs_distinct();
    assert(is_cmd_set(spec_cmd_set(k, v)));
    assert(is_cmd_del(spec_cmd_del(k)));
    assert(!is_cmd_get(spec_cmd_del(k)));
    assert(!is_cmd_set(spec_cmd_del(k)));
}

/// Dispatch one parsed command against the keyspace, appending the
/// serialized (and size-guarded) reply to `out`.
pub fn do_request(map: &mut HMap, cmd: &Vec<Vec<u8>>, out: &mut Vec<u8>)
    requires
        hmap_wf(*old(map)),
        spec_total_size(*old(map)) < usize::MAX,
    ensures
        hmap_wf(*final(map)),
        final(map)@ == apply_cmd(old(map)@, cmd.deep_view()),
        spec_total_size(*final(map)) <= spec_total_size(*old(map)) + 1,
        exists|r: ValueV| (#[trigger] reply_rel(old(map)@, cmd.deep_view(), r)) && final(out)@
            == old(out)@ + enc(guard_reply(r)),
{
    let ghost dv = cmd.deep_view();
    proof {
        if cmd@.len() > 0 {
            assert(dv[0] == cmd@[0]@);
        }
    }
    if cmd.len() == 1 && cmd_is(cmd[0].as_slice(), verb_keys().as_slice()) {
        proof {
            assert(is_cmd_keys(dv));
            assert(seq![spec_verb_keys()].len() == 1);
        }
        do_keys(map, out);
        proof {
            let r = choose|r: ValueV| (#[trigger] reply_rel(map@, seq![spec_verb_keys()], r))
                && out@ == old(out)@ + enc(guard_reply(r));
            let ks = choose|ks: Seq<Seq<u8>>| #[trigger] keys_reply(map@, ks, r);
            assert(keys_reply(old(map)@, ks, r));
            assert(reply_rel(old(map)@, dv, r));
        }
    } else if cmd.len() == 2 && cmd_is(cmd[0].as_slice(), verb_get().as_slice()) {
        do_get(map, cmd, out);
        proof {
            assert(reply_rel(old(map)@, dv, reply_of(old(map)@, dv)));
        }
    } else if cmd.len() == 3 && cmd_is(cmd[0].as_slice(), verb_set().as_slice()) {
        do_set(map, cmd, out);
        proof {
            assert(reply_rel(old(map)@, dv, ValueV::Nil));
        }
    } else if cmd.len() == 2 && cmd_is(cmd[0].as_slice(), verb_del().as_slice()) {
        do_del(map, cmd, out);
        proof {
            assert(reply_rel(old(map)@, dv, reply_of(old(map)@, dv)));
        }
    } else {
        let msg = msg_unknown_cmd();
        out_err(out, RES_ERR, msg.as_slice());
        proof {
            let r = reply_of(old(map)@, dv);
            assert(r == (ValueV::Error { code: RES_ERR, msg: spec_msg_unknown_cmd() }));
            lemma_enc_len(r);
            assert(reply_rel(old(map)@, dv, r));
        }
    }
}

} // verus!
