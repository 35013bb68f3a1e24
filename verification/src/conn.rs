//! The per-connection state machine.
//!
//! A connection reads whole frames into `rbuf`, dispatches one request at
//! a time, and stages the single pending reply frame in `wbuf` until it
//! drains — a single-slot design that bounds per-connection memory and
//! applies backpressure.  The actual socket reads and writes happen
//! outside; this module holds every decision: framing, dispatch, the
//! transitions between Reading, Writing and Closed, and the buffer
//! bookkeeping.
//!
//! Replies leave in request order: the ghost history `reqs`/`reps`
//! records each consumed request payload and its staged reply frame, and
//! well-formedness pins the concatenation of all reply frames to the
//! bytes already written plus the one pending frame.

use vstd::prelude::*;
use vstd::bytes::spec_u32_from_le_bytes;
use vstd::bytes::spec_u32_to_le_bytes;
use vstd::bytes::u32_from_le_bytes;
use vstd::bytes::u32_to_le_bytes;
use vstd::slice::slice_subrange;
use vstd::slice::slice_to_vec;
use crate::K_MAX_MSG;
use crate::codec::spec_parse_req;
use crate::codec::parse_req;
use crate::hashtable::HMap;
use crate::hashtable::hmap_wf;
use crate::hashtable::spec_total_size;
use crate::resp::enc;
use crate::resp::lemma_enc_len;
use crate::resp::spec_too_big_reply;
use crate::server::apply_cmd;
use crate::server::do_request;
use crate::server::guard_reply;
use crate::server::reply_rel;

verus! {

/// The connection's phase: consuming requests, draining one reply, or
/// closed for good.
#[derive(PartialEq, Eq, Structural, Clone, Copy, Debug)]
pub enum State {
    Reading,
    Writing,
    Closed,
}

/// One connection's buffers, phase, and ghost I/O history.
pub struct Conn {
    /// Bytes received and not yet consumed; whole requests start at 0.
    pub rbuf: Vec<u8>,
    /// The one staged reply frame, length prefix included.
    pub wbuf: Vec<u8>,
    /// How many bytes of `wbuf` are already written out.
    pub wbuf_sent: usize,
    /// Current phase.
    pub state: State,
    /// Payloads of the requests consumed so far, in order.
    pub reqs: Ghost<Seq<Seq<u8>>>,
    /// Reply frames staged so far, in order; one per consumed request.
    pub reps: Ghost<Seq<Seq<u8>>>,
    /// Bytes handed to the socket so far.
    pub sent: Ghost<Seq<u8>>,
}

/// Concatenation of a sequence of byte strings.
pub open spec fn cat(rs: Seq<Seq<u8>>) -> Seq<u8>
    decreases rs.len(),
{
    if rs.len() == 0 {
        Seq::empty()
    } else {
        cat(rs.drop_last()) + rs.last()
    }
}

/// Connection well-formedness.  The last clause is the ordering
/// guarantee: everything this connection ever writes is exactly its
/// staged reply frames, in the order the requests were consumed.
pub open spec fn conn_wf(c: Conn) -> bool {
    &&& c.rbuf@.len() <= 4 + K_MAX_MSG
    &&& c.wbuf@.len() <= 4 + K_MAX_MSG
    &&& c.wbuf_sent <= c.wbuf@.len()
    &&& c.reqs@.len() == c.reps@.len()
    &&& (c.state is Reading ==> c.wbuf@.len() == 0 && c.wbuf_sent == 0)
    &&& cat(c.reps@) == c.sent@ + c.wbuf@.skip(c.wbuf_sent as int)
}

/// Responses are delivered in request order: on any well-formed
/// connection, the bytes written to the socket so far are a prefix of the
/// staged reply frames concatenated in the order their requests were
/// consumed, and `try_one_request` pairs one reply frame with each
/// request it consumes.
pub proof fn lemma_output_in_request_order(c: Conn)
    requires
        conn_wf(c),
    ensures
        cat(c.reps@).take(c.sent@.len() as int) == c.sent@,
{
    assert(cat(c.reps@).take(c.sent@.len() as int) =~= c.sent@);
}

impl Conn {
    /// A fresh connection: reading, with empty buffers and history.
    pub fn new() -> (c: Conn)
        ensures
            conn_wf(c),
            c.state is Reading,
            c.rbuf@ == Seq::<u8>::empty(),
            c.reqs@ == Seq::<Seq<u8>>::empty(),
            c.reps@ == Seq::<Seq<u8>>::empty(),
            c.sent@ == Seq::<u8>::empty(),
    {
        let c = Conn {
            rbuf: Vec::new(),
            wbuf: Vec::new(),
            wbuf_sent: 0,
            state: State::Reading,
            reqs: Ghost(Seq::empty()),
            reps: Ghost(Seq::empty()),
            sent: Ghost(Seq::empty()),
        };
        proof {
            assert(cat(c.reps@) =~= c.sent@ + c.wbuf@.skip(0));
        }
        c
    }

    /// Take in bytes read from the socket.
    pub fn feed(&mut self, data: &[u8])
        requires
            conn_wf(*old(self)),
            old(self).state is Reading,
            old(self).rbuf@.len() + data@.len() <= 4 + K_MAX_MSG,
        ensures
            conn_wf(*final(self)),
            final(self).rbuf@ == old(self).rbuf@ + data@,
            final(self).state == old(self).state,
            final(self).wbuf@ == old(self).wbuf@,
            final(self).wbuf_sent == old(self).wbuf_sent,
            final(self).reqs == old(self).reqs,
            final(self).reps == old(self).reps,
            final(self).sent == old(self).sent,
    {
        self.rbuf.extend_from_slice(data);
    }

    /// Close the connection: terminal, nothing more is consumed or sent.
    pub fn close(&mut self)
        requires
            conn_wf(*old(self)),
        ensures
            conn_wf(*final(self)),
            final(self).state is Closed,
            final(self).rbuf@ == old(self).rbuf@,
            final(self).wbuf@ == old(self).wbuf@,
            final(self).wbuf_sent == old(self).wbuf_sent,
            final(self).reqs == old(self).reqs,
            final(self).reps == old(self).reps,
            final(self).sent == old(self).sent,
    {
        self.state = State::Closed;
    }

    /// Consume the first whole request in `rbuf`, if any: dispatch it,
    /// stage the reply frame, compact the buffer, and move to Writing.
    /// A frame longer than `K_MAX_MSG`, or a malformed request payload,
    /// closes the connection with no reply bytes.  Returns whether a
    /// request was consumed.
    pub fn try_one_request(&mut self, map: &mut HMap) -> (progressed: bool)
        requires
            conn_wf(*old(self)),
            old(self).state is Reading,
            hmap_wf(*old(map)),
            spec_total_size(*old(map)) < usize::MAX,
        ensures
            conn_wf(*final(self)),
            hmap_wf(*final(map)),
            spec_total_size(*final(map)) <= spec_total_size(*old(map)) + 1,
            final(self).sent == old(self).sent,
            ({
                let rb = old(self).rbuf@;
                let unchanged = {
                    &&& final(self).rbuf@ == rb
                    &&& final(self).wbuf@ == old(self).wbuf@
                    &&& final(self).reqs == old(self).reqs
                    &&& final(self).reps == old(self).reps
                    &&& final(map)@ == old(map)@
                };
                if rb.len() < 4 {
                    unchanged && final(self).state is Reading && !progressed
                } else {
                    let len = spec_u32_from_le_bytes(rb.subrange(0, 4)) as int;
                    if len > K_MAX_MSG {
                        unchanged && final(self).state is Closed && !progressed
                    } else if 4 + len > rb.len() {
                        unchanged && final(self).state is Reading && !progressed
                    } else {
                        let payload = rb.subrange(4, 4 + len);
                        match spec_parse_req(payload) {
                            None => unchanged && final(self).state is Closed && !progressed,
                            Some(cmd) => {
                                &&& progressed
                                &&& final(self).state is Writing
                                &&& final(map)@ == apply_cmd(old(map)@, cmd)
                                &&& final(self).rbuf@ == rb.skip(4 + len)
                                &&& final(self).reqs@ == old(self).reqs@.push(payload)
                                &&& final(self).reps@ == old(self).reps@.push(final(self).wbuf@)
                                &&& final(self).wbuf_sent == 0
                                &&& exists|r: crate::resp::ValueV|
                                    (#[trigger] reply_rel(old(map)@, cmd, r)) && final(self).wbuf@
                                        == spec_u32_to_le_bytes(
                                        enc(guard_reply(r)).len() as u32,
                                    ) + enc(guard_reply(r))
                            },
                        }
                    }
                }
            }),
    {
        if self.rbuf.len() < 4 {
            return false;
        }
        let len = u32_from_le_bytes(slice_subrange(self.rbuf.as_slice(), 0, 4)) as usize;
        if len > K_MAX_MSG {
            self.state = State::Closed;
            return false;
        }
        if 4 + len > self.rbuf.len() {
            return false;
        }
        let payload = slice_to_vec(slice_subrange(self.rbuf.as_slice(), 4, 4 + len));
        let cmd_opt = parse_req(payload.as_slice());
        match cmd_opt {
            None => {
                self.state = State::Closed;
                false
            }
            Some(cmd) => {
                let ghost m0 = map@;
                let mut out: Vec<u8> = Vec::new();
                do_request(map, &cmd, &mut out);
                let ghost r = choose|r: crate::resp::ValueV|
                    (#[trigger] reply_rel(m0, cmd.deep_view(), r)) && out@ == enc(guard_reply(r));
                proof {
                    lemma_enc_len(guard_reply(r));
                    lemma_enc_len(spec_too_big_reply());
                    assert(enc(guard_reply(r)).len() + 4 <= K_MAX_MSG);
                }
                let mut frame = u32_to_le_bytes(out.len() as u32);
                frame.append(&mut out);
                self.wbuf = frame;
                self.wbuf_sent = 0;
                let rest = slice_to_vec(
                    slice_subrange(self.rbuf.as_slice(), 4 + len, self.rbuf.len()),
                );
                self.rbuf = rest;
                self.state = State::Writing;
                proof {
                    self.reqs@ = self.reqs@.push(payload@);
                    self.reps@ = self.reps@.push(self.wbuf@);
                    assert(self.reps@.last() == self.wbuf@);
                    assert(self.reps@.drop_last() =~= old(self).reps@);
                    assert(cat(self.reps@) =~= cat(old(self).reps@) + self.wbuf@);
                    assert(old(self).wbuf@.skip(old(self).wbuf_sent as int) =~= Seq::<u8>::empty());
                    assert(cat(self.reps@) =~= self.sent@ + self.wbuf@.skip(0));
                }
                true
            }
        }
    }

    /// The bytes of the staged reply still to be written.
    pub fn pending(&self) -> (r: Vec<u8>)
        requires
            conn_wf(*self),
        ensures
            r@ == self.wbuf@.skip(self.wbuf_sent as int),
    {
        slice_to_vec(slice_subrange(self.wbuf.as_slice(), self.wbuf_sent, self.wbuf.len()))
    }

    /// Record that `n` more bytes of the staged reply reached the socket.
    /// Once the frame has fully drained, the connection reads again.
    pub fn on_write(&mut self, n: usize)
        requires
            conn_wf(*old(self)),
            old(self).state is Writing,
            n <= old(self).wbuf@.len() - old(self).wbuf_sent,
        ensures
            conn_wf(*final(self)),
            final(self).rbuf@ == old(self).rbuf@,
            final(self).reqs == old(self).reqs,
            final(self).reps == old(self).reps,
            final(self).sent@ == old(self).sent@ + old(self).wbuf@.subrange(
                old(self).wbuf_sent as int,
                old(self).wbuf_sent + n,
            ),
            if old(self).wbuf_sent + n == old(self).wbuf@.len() {
                final(self).state is Reading && final(self).wbuf@.len() == 0
            } else {
                final(self).state is Writing && final(self).wbuf@ == old(self).wbuf@
                    && final(self).wbuf_sent == old(self).wbuf_sent + n
            },
    {
        proof {
            self.sent@ = self.sent@ + self.wbuf@.subrange(
                self.wbuf_sent as int,
                self.wbuf_sent + n,
            );
        }
        self.wbuf_sent = self.wbuf_sent + n;
        proof {
            assert(old(self).wbuf@.skip(old(self).wbuf_sent as int) =~= old(self).wbuf@.subrange(
                old(self).wbuf_sent as int,
                old(self).wbuf_sent + n,
            ) + old(self).wbuf@.skip(old(self).wbuf_sent + n));
        }
        if self.wbuf_sent == self.wbuf.len() {
            self.wbuf = Vec::new();
            self.wbuf_sent = 0;
            self.state = State::Reading;
            proof {
                assert(self.wbuf@.skip(0) =~= Seq::<u8>::empty());
                assert(cat(self.reps@) =~= self.sent@ + self.wbuf@.skip(0));
            }
        } else {
            proof {
                assert(cat(self.reps@) =~= self.sent@ + self.wbuf@.skip(self.wbuf_sent as int));
            }
        }
    }
}

} // verus!
