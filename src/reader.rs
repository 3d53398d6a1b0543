use vstd::prelude::*;

use bytes::BytesMut;

use crate::buffer::{buf_advance, buf_bytes, buf_extend, buf_new, contents};
use crate::parser::{decode, decode_value, lemma_decode_extends, DecodeStep, Fault, Parsed};
use crate::types::{RespValue, Wire};

verus! {

/// Every whole request at the start of `s`, in order, and how many bytes they take; `None`
/// where the bytes break the grammar before an incomplete tail.
pub open spec fn drain(s: Seq<u8>) -> Option<(Seq<Wire>, nat)>
    decreases s.len(),
{
    match decode(s) {
        Parsed::Incomplete => Some((Seq::empty(), 0)),
        Parsed::Invalid(_, _) => None,
        Parsed::Done(w, n) => if 0 < n <= s.len() {
            match drain(s.subrange(n, s.len() as int)) {
                Some((ws, m)) => Some((seq![w] + ws, (n + m) as nat)),
                None => None,
            }
        } else {
            None
        },
    }
}

/// What was drained before, put in front of what drains after.
pub open spec fn after(got: Seq<Wire>, taken: nat, d: Option<(Seq<Wire>, nat)>) -> Option<(Seq<Wire>, nat)> {
    match d {
        Some((ws, m)) => Some((got + ws, (taken + m) as nat)),
        None => None,
    }
}

proof fn lemma_drain_step(p: Seq<u8>, w: Wire, n: int, got: Seq<Wire>, taken: nat)
    requires
        decode(p) == Parsed::Done(w, n),
    ensures
        0 < n <= p.len(),
        after(got, taken, drain(p)) == after(
            got + seq![w],
            (taken + n) as nat,
            drain(p.subrange(n, p.len() as int)),
        ),
{
    lemma_decode_extends(p, Seq::empty());
    assert(p + Seq::<u8>::empty() =~= p);
    if let Some((ws, m)) = drain(p.subrange(n, p.len() as int)) {
        assert(got + (seq![w] + ws) =~= (got + seq![w]) + ws);
    }
}

/// Reading in pieces changes nothing: draining the first piece `a`, then what it left over
/// followed by `b`, gives the requests, in order, and the byte count that draining `a + b`
/// at once gives; and bytes that break the grammar in `a` break it in `a + b` too. By
/// induction this holds for any number of pieces, down to one byte each.
pub proof fn lemma_drain_in_pieces(a: Seq<u8>, b: Seq<u8>)
    ensures
        match drain(a) {
            Some((ws, m)) => m <= a.len() && drain(a + b) == after(
                ws,
                m,
                drain(a.subrange(m as int, a.len() as int) + b),
            ),
            None => drain(a + b) is None,
        },
    decreases a.len(),
{
    match decode(a) {
        Parsed::Incomplete => {
            assert(a.subrange(0, a.len() as int) =~= a);
            if let Some((ws, m)) = drain(a + b) {
                assert(Seq::<Wire>::empty() + ws =~= ws);
            }
        },
        Parsed::Invalid(_, _) => {
            lemma_decode_extends(a, b);
        },
        Parsed::Done(w, n) => {
            lemma_decode_extends(a, b);
            let rest = a.subrange(n, a.len() as int);
            assert((a + b).subrange(n, (a + b).len() as int) =~= rest + b);
            lemma_drain_in_pieces(rest, b);
            if let Some((ws, m)) = drain(rest) {
                assert(rest.subrange(m as int, rest.len() as int) =~= a.subrange(n + m, a.len() as int));
                if let Some((ws2, m2)) = drain(rest.subrange(m as int, rest.len() as int) + b) {
                    assert(seq![w] + (ws + ws2) =~= (seq![w] + ws) + ws2);
                }
            }
        },
    }
}

/// What a reader holding `pending` gives when `chunks` arrive one read at a time and it
/// drains after each: the requests, in order, and the bytes left waiting; `None` where the
/// bytes break the grammar.
pub open spec fn read_chunks(pending: Seq<u8>, chunks: Seq<Seq<u8>>) -> Option<(Seq<Wire>, Seq<u8>)>
    decreases chunks.len(),
{
    if chunks.len() == 0 {
        Some((Seq::empty(), pending))
    } else {
        let buf = pending + chunks[0];
        match drain(buf) {
            None => None,
            Some((ws, m)) => match read_chunks(buf.subrange(m as int, buf.len() as int), chunks.drop_first()) {
                None => None,
                Some((ws2, rest)) => Some((ws + ws2, rest)),
            },
        }
    }
}

/// However a stream is cut into reads, down to one byte each, reading it piece by piece
/// gives the same requests in the same order, the same bytes left waiting, and a broken
/// stream is found broken, as reading it whole.
pub proof fn lemma_read_in_chunks(pending: Seq<u8>, chunks: Seq<Seq<u8>>)
    requires
        drain(pending) == Some((Seq::<Wire>::empty(), 0nat)),
    ensures
        read_chunks(pending, chunks) == match drain(pending + concat(chunks)) {
            None => None,
            Some((ws, m)) => Some(
                (ws, (pending + concat(chunks)).subrange(m as int, (pending + concat(chunks)).len() as int)),
            ),
        },
    decreases chunks.len(),
{
    let whole = pending + concat(chunks);
    if chunks.len() == 0 {
        assert(whole =~= pending);
        assert(pending.subrange(0, pending.len() as int) =~= pending);
    } else {
        let a = pending + chunks[0];
        let b = concat(chunks.drop_first());
        assert(whole =~= a + b);
        lemma_drain_in_pieces(a, b);
        if let Some((ws, m)) = drain(a) {
            let a2 = a.subrange(m as int, a.len() as int);
            lemma_drain_leftover(a);
            lemma_read_in_chunks(a2, chunks.drop_first());
            if let Some((ws2, m2)) = drain(a2 + b) {
                lemma_drain_leftover(a2 + b);
                assert((a2 + b).subrange(m2 as int, (a2 + b).len() as int) =~= whole.subrange(
                    (m + m2) as int,
                    whole.len() as int,
                ));
            }
        }
    }
}

/// What a drain leaves holds no whole request.
proof fn lemma_drain_leftover(s: Seq<u8>)
    ensures
        drain(s) matches Some((_, m)) ==> m <= s.len() && drain(s.subrange(m as int, s.len() as int))
            == Some((Seq::<Wire>::empty(), 0nat)),
    decreases s.len(),
{
    match decode(s) {
        Parsed::Incomplete => {
            assert(s.subrange(0, s.len() as int) =~= s);
        },
        Parsed::Done(w, n) => {
            if 0 < n <= s.len() {
                let t = s.subrange(n, s.len() as int);
                lemma_drain_leftover(t);
                if let Some((ws, m)) = drain(t) {
                    assert(t.subrange(m as int, t.len() as int) =~= s.subrange(n + m, s.len() as int));
                }
            }
        },
        _ => {},
    }
}

/// The bytes of several pieces, one after another.
pub open spec fn concat(pieces: Seq<Seq<u8>>) -> Seq<u8>
    decreases pieces.len(),
{
    if pieces.len() == 0 {
        Seq::empty()
    } else {
        pieces[0] + concat(pieces.drop_first())
    }
}

/// Pipelining: requests sent back to back, each of them whole and well-formed on its own,
/// come out of one pass over the bytes as the same requests, as many, in the same order,
/// with nothing left over.
pub proof fn lemma_pipelined(reqs: Seq<Seq<u8>>, vals: Seq<Wire>)
    requires
        reqs.len() == vals.len(),
        forall|i: int|
            0 <= i < reqs.len() ==> decode(#[trigger] reqs[i]) == Parsed::Done(vals[i], reqs[i].len() as int),
    ensures
        drain(concat(reqs)) == Some((vals, concat(reqs).len())),
    decreases reqs.len(),
{
    let s = concat(reqs);
    if reqs.len() == 0 {
        assert(decode(s) is Incomplete);
        assert(vals =~= Seq::<Wire>::empty());
    } else {
        let first = reqs[0];
        let rest = reqs.drop_first();
        assert forall|i: int| 0 <= i < rest.len() implies decode(#[trigger] rest[i]) == Parsed::Done(
            vals.drop_first()[i],
            rest[i].len() as int,
        ) by {
            assert(rest[i] == reqs[i + 1]);
        }
        lemma_pipelined(rest, vals.drop_first());
        assert(decode(first) == Parsed::Done(vals[0], first.len() as int));
        lemma_decode_extends(first, concat(rest));
        assert(s.subrange(first.len() as int, s.len() as int) =~= concat(rest));
        assert(seq![vals[0]] + vals.drop_first() =~= vals);
    }
}

/// The bytes that one connection has received and not yet decoded.
pub struct RespReader {
    buffer: BytesMut,
}

impl RespReader {
    /// The bytes waiting to be decoded.
    pub closed spec fn pending(&self) -> Seq<u8> {
        contents(self.buffer)
    }

    /// A reader with nothing waiting.
    pub fn new() -> (r: RespReader)
        ensures
            r.pending() == Seq::<u8>::empty(),
    {
        RespReader { buffer: buf_new() }
    }

    /// Adds bytes read from the connection.
    pub fn feed(&mut self, data: &[u8])
        ensures
            final(self).pending() == old(self).pending() + data@,
    {
        buf_extend(&mut self.buffer, data);
    }

    /// Whether no bytes are waiting.
    pub fn is_empty(&self) -> (r: bool)
        ensures
            r == (self.pending().len() == 0),
    {
        buf_bytes(&self.buffer).len() == 0
    }

    /// Decodes every whole request waiting, in order, and keeps the incomplete tail for the
    /// next read. Where the bytes break the grammar the connection cannot go on: the whole
    /// requests before the break are dropped from what waits, and the error gives the offset,
    /// among the bytes still waiting, where they break it, and how.
    pub fn next_values(&mut self) -> (r: Result<Vec<RespValue>, (usize, Fault)>)
        ensures
            match drain(old(self).pending()) {
                None => {
                    let k = old(self).pending().len() - final(self).pending().len();
                    r matches Err((at, f)) && 0 <= k && final(self).pending() == old(
                        self,
                    ).pending().subrange(k, old(self).pending().len() as int) && decode(
                        final(self).pending(),
                    ) == Parsed::<Wire>::Invalid(at as int, f)
                },
                Some((ws, m)) => r matches Ok(vs) && vs@.len() == ws.len() && (forall|i: int|
                    0 <= i < ws.len() ==> (#[trigger] vs@[i])@ == ws[i]) && final(self).pending()
                    == old(self).pending().subrange(m as int, old(self).pending().len() as int),
            },
    {
        let ghost start = self.pending();
        let mut out: Vec<RespValue> = Vec::new();
        let ghost taken: nat = 0;
        let ghost got: Seq<Wire> = Seq::empty();
        assert(start.subrange(0, start.len() as int) =~= start);
        loop
            invariant
                start == old(self).pending(),
                taken <= start.len(),
                self.pending() == start.subrange(taken as int, start.len() as int),
                out@.len() == got.len(),
                forall|i: int| 0 <= i < got.len() ==> (#[trigger] out@[i])@ == got[i],
                drain(start) == after(got, taken, drain(self.pending())),
            decreases self.pending().len(),
        {
            let bytes = buf_bytes(&self.buffer);
            let step = decode_value(bytes);
            assert(step@ == decode(self.pending()));
            match step {
                DecodeStep::Incomplete => {
                    assert(drain(self.pending()) == Some((Seq::<Wire>::empty(), 0nat)));
                    assert(drain(start) == Some((got + Seq::<Wire>::empty(), taken)));
                    assert(got + Seq::<Wire>::empty() =~= got);
                    return Ok(out);
                },
                DecodeStep::Invalid(at, f) => {
                    assert(drain(self.pending()) is None);
                    assert(drain(start) is None);
                    assert(self.pending().len() == start.len() - taken);
                    return Err((at, f));
                },
                DecodeStep::Value(v, n) => {
                    let ghost p = self.pending();
                    proof {
                        lemma_drain_step(p, v@, n as int, got, taken);
                        assert(p.subrange(n as int, p.len() as int) =~= start.subrange(
                            taken + n,
                            start.len() as int,
                        ));
                        got = got + seq![v@];
                        taken = taken + n as nat;
                    }
                    out.push(v);
                    buf_advance(&mut self.buffer, n);
                },
            }
        }
    }
}

} // verus!
