use vstd::prelude::*;

use bytes::BytesMut;

use crate::buffer::contents;
use crate::encoder::{encode, encoding};
use crate::reader::concat;
use crate::storage::{removed_count, Storage};
use crate::types::{interpret, wires, BulkString, CmdError, Op, RedisCmd, RespValue, Wire};

verus! {

pub open spec fn status(text: Seq<char>) -> Wire {
    Wire::Status(text)
}

pub open spec fn error(code: Seq<char>) -> Wire {
    Wire::Error(code, None)
}

/// The value that `key` holds once `suffix` is added to its end, an absent value being
/// taken as empty.
pub open spec fn appended(m: Map<Seq<u8>, Seq<u8>>, key: Seq<u8>, suffix: Seq<u8>) -> Seq<u8> {
    (if m.contains_key(key) {
        m[key]
    } else {
        Seq::empty()
    }) + suffix
}

/// Whether a command can run without a length passing the largest signed 64-bit integer.
pub open spec fn fits(op: Op, m: Map<Seq<u8>, Seq<u8>>) -> bool {
    match op {
        Op::Append(k, v) => appended(m, k, v).len() <= i64::MAX,
        Op::Delete(ks) => ks.len() <= i64::MAX,
        _ => true,
    }
}

/// What a command does to the mapping.
pub open spec fn effect(op: Op, m: Map<Seq<u8>, Seq<u8>>) -> Map<Seq<u8>, Seq<u8>> {
    match op {
        Op::SetKey(k, v) => m.insert(k, v),
        Op::Delete(ks) => m.remove_keys(ks.to_set()),
        Op::Append(k, v) => m.insert(k, appended(m, k, v)),
        Op::FlushAll => Map::empty(),
        _ => m,
    }
}

/// Whether `w` is the reply to a command on the mapping `m`. Only the order of the keys
/// that a key listing gives is left open.
pub open spec fn is_reply(op: Op, m: Map<Seq<u8>, Seq<u8>>, w: Wire) -> bool {
    match op {
        Op::Ping(None) => w == status(seq!['P', 'O', 'N', 'G']),
        Op::Ping(Some(v)) => w == Wire::Bulk(v),
        Op::Get(k) => w == (if m.contains_key(k) {
            Wire::Bulk(m[k])
        } else {
            Wire::Null
        }),
        Op::SetKey(_, _) => w == status(seq!['O', 'K']),
        Op::Delete(ks) => w == Wire::Integer(removed_count(m, ks)),
        Op::Append(k, v) => w == Wire::Integer(appended(m, k, v).len() as int),
        Op::Keys(_) => w matches Wire::Array(items) && (forall|i: int|
            0 <= i < items.len() ==> #[trigger] items[i] is Bulk) && (forall|i: int, j: int|
            0 <= i < j < items.len() ==> #[trigger] items[i] != #[trigger] items[j])
            && items.map_values(|x: Wire| x->Bulk_0).to_set() == m.dom(),
        Op::Exists(k) => w == Wire::Integer(
            if m.contains_key(k) {
                1
            } else {
                0
            },
        ),
        Op::FlushAll => w == status(seq!['O', 'K']),
        Op::Command => w == error(seq!['N', 'O', 'T', '_', 'I', 'M', 'P', 'L', 'E', 'M', 'E', 'N', 'T', 'E', 'D']),
    }
}

pub open spec fn invalid_command() -> Wire {
    error(seq!['I', 'N', 'V', 'A', 'L', 'I', 'D', '_', 'C', 'O', 'M', 'M', 'A', 'N', 'D'])
}

pub open spec fn too_long() -> Wire {
    error(seq!['V', 'A', 'L', 'U', 'E', '_', 'T', 'O', 'O', '_', 'L', 'O', 'N', 'G'])
}

/// Two appends to one key, in either order, leave a value as long as the old one and both
/// suffixes together: neither update is lost.
pub proof fn lemma_appends_compose(m: Map<Seq<u8>, Seq<u8>>, key: Seq<u8>, a: Seq<u8>, b: Seq<u8>)
    ensures
        effect(Op::Append(key, b), effect(Op::Append(key, a), m))[key].len() == appended(m, key, Seq::empty()).len() + a.len() + b.len(),
        effect(Op::Append(key, a), effect(Op::Append(key, b), m))[key].len() == appended(m, key, Seq::empty()).len() + a.len() + b.len(),
{
}

fn text(s: &str) -> (r: String)
    ensures
        r@ == s@,
{
    s.to_owned()
}

/// An array of the given byte strings, in order.
fn bulk_array(mut keys: Vec<BulkString>) -> (r: RespValue)
    ensures
        r@ matches Wire::Array(ws) && ws.len() == keys@.len() && forall|j: int|
            0 <= j < ws.len() ==> #[trigger] ws[j] == Wire::Bulk(keys@[j]@),
{
    let ghost ks = keys@;
    let mut items: Vec<RespValue> = Vec::new();
    let mut i: usize = 0;
    while i < keys.len()
        invariant
            keys@.len() == ks.len(),
            items@.len() == i,
            i <= ks.len(),
            forall|j: int| i <= j < ks.len() ==> #[trigger] keys@[j] == ks[j],
            forall|j: int| 0 <= j < i ==> (#[trigger] items@[j])@ == Wire::Bulk(ks[j]@),
        decreases ks.len() - i,
    {
        let mut key = BulkString(Vec::new());
        std::mem::swap(&mut key, &mut keys[i]);
        items.push(RespValue::BulkString(key));
        i = i + 1;
    }
    RespValue::Array(items)
}

impl Storage {
    /// Runs one command as a whole and gives its reply.
    pub fn execute(&mut self, cmd: RedisCmd) -> (r: RespValue)
        requires
            old(self).wf(),
            fits(cmd@, old(self)@),
        ensures
            final(self).wf(),
            final(self)@ == effect(cmd@, old(self)@),
            is_reply(cmd@, old(self)@, r@),
    {
        proof {
            reveal_strlit("PONG");
            reveal_strlit("OK");
            reveal_strlit("NOT_IMPLEMENTED");
            assert("PONG"@ =~= seq!['P', 'O', 'N', 'G']);
            assert("OK"@ =~= seq!['O', 'K']);
            assert("NOT_IMPLEMENTED"@ =~= seq!['N', 'O', 'T', '_', 'I', 'M', 'P', 'L', 'E', 'M', 'E', 'N', 'T', 'E', 'D']);
        }
        match cmd {
            RedisCmd::Ping(None) => RespValue::SimpleString(text("PONG")),
            RedisCmd::Ping(Some(value)) => RespValue::BulkString(value),
            RedisCmd::Get(key) => match self.get(key) {
                Some(value) => RespValue::BulkString(value),
                None => RespValue::Null,
            },
            RedisCmd::SetKey(key, value) => {
                self.set(key, value);
                RespValue::SimpleString(text("OK"))
            },
            RedisCmd::Delete(keys) => RespValue::Integer(self.del(keys)),
            RedisCmd::Append(key, value) => RespValue::Integer(self.append(key, value)),
            RedisCmd::Keys(pattern) => {
                let keys = self.keys(pattern);
                let ghost ks = keys@;
                let r = bulk_array(keys);

                proof {
                    let ws = r@->Array_0;
                    assert(ws.map_values(|x: Wire| x->Bulk_0) =~= ks.map_values(|k: BulkString| k@));
                    assert forall|a: int, b: int| 0 <= a < b < ws.len() implies #[trigger] ws[a] != #[trigger] ws[b] by {
                        assert(ks[a]@ != ks[b]@);
                    }
                }
                r
            },
            RedisCmd::Exists(key) => RespValue::Integer(self.key_exists(key)),
            RedisCmd::FlushAll => {
                self.clear();
                RespValue::SimpleString(text("OK"))
            },
            RedisCmd::Command => RespValue::Error(text("NOT_IMPLEMENTED"), None),
        }
    }
}

/// Whether `reply` answers the request `req` and the store went from `before` to `after`
/// in doing so.
pub open spec fn handled(req: Wire, before: Map<Seq<u8>, Seq<u8>>, after: Map<Seq<u8>, Seq<u8>>, reply: Wire) -> bool {
    match interpret(req) {
        Ok(op) => if fits(op, before) {
            after == effect(op, before) && is_reply(op, before, reply)
        } else {
            after == before && reply == too_long()
        },
        Err(_) => after == before && reply == invalid_command(),
    }
}

/// Answers one request: a command runs against the store; a request that is no command is
/// answered with an error and leaves the store as it was.
pub fn process(store: &mut Storage, resp: RespValue) -> (r: RespValue)
    requires
        old(store).wf(),
    ensures
        final(store).wf(),
        handled(resp@, old(store)@, final(store)@, r@),
{
    proof {
        reveal_strlit("INVALID_COMMAND");
        reveal_strlit("VALUE_TOO_LONG");
        assert("INVALID_COMMAND"@ =~= seq!['I', 'N', 'V', 'A', 'L', 'I', 'D', '_', 'C', 'O', 'M', 'M', 'A', 'N', 'D']);
        assert("VALUE_TOO_LONG"@ =~= seq!['V', 'A', 'L', 'U', 'E', '_', 'T', 'O', 'O', '_', 'L', 'O', 'N', 'G']);
    }
    let cmd = match RedisCmd::try_from(resp) {
        Ok(cmd) => cmd,
        Err(_) => {
            return RespValue::Error(text("INVALID_COMMAND"), None);
        },
    };
    let ok = match &cmd {
        RedisCmd::Append(key, value) => {
            let current = store.value_len(key);
            current as u64 <= i64::MAX as u64 && value.0.len() as u64 <= i64::MAX as u64 - current as u64
        },
        RedisCmd::Delete(keys) => keys.len() as u64 <= i64::MAX as u64,
        _ => true,
    };
    if !ok {
        return RespValue::Error(text("VALUE_TOO_LONG"), None);
    }
    store.execute(cmd)
}

/// Whether `replies` answer `reqs` one by one, the store passing through `states` from
/// `before` to `after`.
pub open spec fn served(
    reqs: Seq<Wire>,
    states: Seq<Map<Seq<u8>, Seq<u8>>>,
    replies: Seq<Wire>,
    before: Map<Seq<u8>, Seq<u8>>,
    after: Map<Seq<u8>, Seq<u8>>,
) -> bool {
    &&& states.len() == reqs.len() + 1
    &&& replies.len() == reqs.len()
    &&& states[0] == before
    &&& states.last() == after
    &&& forall|i: int|
        0 <= i < replies.len() ==> handled(reqs[i], #[trigger] states[i], states[i + 1], replies[i])
}

/// Answers the requests of one read, in order, each against the store as the one before
/// left it, and appends the encoded replies to `out`, to be sent in one write.
pub fn respond_all(store: &mut Storage, requests: Vec<RespValue>, out: &mut BytesMut)
    requires
        old(store).wf(),
    ensures
        final(store).wf(),
        exists|states: Seq<Map<Seq<u8>, Seq<u8>>>, replies: Seq<Wire>|
            #[trigger] served(
                wires(requests@),
                states,
                replies,
                old(store)@,
                final(store)@,
            ) && contents(*final(out)) == contents(*old(out)) + concat(
                replies.map_values(|w: Wire| encoding(w)),
            ),
{
    let ghost reqs = requests@;
    let ghost states: Seq<Map<Seq<u8>, Seq<u8>>> = seq![store@];
    let ghost replies: Seq<Wire> = Seq::empty();
    let mut requests = requests;
    let mut i: usize = 0;
    while i < requests.len()
        invariant
            store.wf(),
            requests@.len() == reqs.len(),
            i <= reqs.len(),
            forall|j: int| i <= j < reqs.len() ==> #[trigger] requests@[j] == reqs[j],
            states.len() == i + 1,
            replies.len() == i,
            states[0] == old(store)@,
            states.last() == store@,
            forall|j: int| 0 <= j < i ==> handled(reqs[j]@, #[trigger] states[j], states[j + 1], replies[j]),
            contents(*out) == contents(*old(out)) + concat(replies.map_values(|w: Wire| encoding(w))),
        decreases reqs.len() - i,
    {
        let mut req = RespValue::Null;
        std::mem::swap(&mut req, &mut requests[i]);
        let ghost before = store@;
        let reply = process(store, req);
        let ghost w = reply@;
        encode(reply, out);
        proof {
            lemma_concat_push(replies.map_values(|x: Wire| encoding(x)), encoding(w));
            assert(replies.push(w).map_values(|x: Wire| encoding(x)) =~= replies.map_values(
                |x: Wire| encoding(x),
            ).push(encoding(w)));
            states = states.push(store@);
            replies = replies.push(w);
        }
        i = i + 1;
    }
    assert(served(wires(reqs), states, replies, old(store)@, store@));
}

proof fn lemma_concat_push(pieces: Seq<Seq<u8>>, last: Seq<u8>)
    ensures
        concat(pieces.push(last)) == concat(pieces) + last,
    decreases pieces.len(),
{
    if pieces.len() == 0 {
        assert(pieces.push(last).drop_first() =~= Seq::<Seq<u8>>::empty());
        assert(concat(pieces.push(last).drop_first()) == Seq::<u8>::empty());
        assert(pieces.push(last)[0] == last);
        assert(concat(pieces.push(last)) =~= last);
    } else {
        lemma_concat_push(pieces.drop_first(), last);
        assert(pieces.push(last).drop_first() =~= pieces.drop_first().push(last));
        assert(concat(pieces.push(last)) =~= concat(pieces) + last);
    }
}

} // verus!
