use vstd::prelude::*;
use vstd::utf8::encode_utf8;

use bytes::BytesMut;

use crate::buffer::{buf_extend, contents};
use crate::parser::{CR, LF};
use crate::types::{wire_of, BulkString, RespValue, Wire};

verus! {

/// The decimal digits of `n`, most significant first, with no leading zero.
pub open spec fn decimal(n: nat) -> Seq<u8>
    decreases n,
{
    if n < 10 {
        seq![(48 + n) as u8]
    } else {
        decimal(n / 10).push((48 + n % 10) as u8)
    }
}

/// The decimal text of a signed integer: `-` before the digits of a negative one.
pub open spec fn signed_decimal(n: int) -> Seq<u8> {
    if n < 0 {
        seq![45u8] + decimal((-n) as nat)
    } else {
        decimal(n as nat)
    }
}

pub open spec fn crlf() -> Seq<u8> {
    seq![CR, LF]
}

/// The bytes that stand for a wire value.
pub open spec fn encoding(w: Wire) -> Seq<u8>
    decreases w, 0nat,
{
    match w {
        Wire::Null => seq![36u8, 45u8, 49u8, CR, LF],
        Wire::Status(t) => seq![43u8] + encode_utf8(t) + crlf(),
        Wire::Error(code, _) => seq![45u8] + encode_utf8(code) + crlf(),
        Wire::Integer(n) => seq![58u8] + signed_decimal(n) + crlf(),
        Wire::Bulk(b) => seq![36u8] + decimal(b.len()) + crlf() + b + crlf(),
        Wire::Array(items) => seq![42u8] + decimal(items.len()) + crlf() + encodings_from(items, 0),
    }
}

/// The encodings of `items[i..]`, one after another.
pub open spec fn encodings_from(items: Seq<Wire>, i: int) -> Seq<u8>
    decreases items, items.len() - i,
{
    if i < 0 || i >= items.len() {
        Seq::empty()
    } else {
        encoding(items[i]) + encodings_from(items, i + 1)
    }
}

/// The decimal digits of `n`.
fn decimal_bytes(n: u64) -> (r: Vec<u8>)
    ensures
        r@ == decimal(n as nat),
    decreases n,
{
    if n < 10 {
        vec![(48 + n) as u8]
    } else {
        let mut r = decimal_bytes(n / 10);
        r.push((48 + n % 10) as u8);
        r
    }
}

/// Appends `prefix`, the text, and `\r\n`.
pub fn encode_string(prefix: u8, value: String, buf: &mut BytesMut)
    ensures
        contents(*final(buf)) == contents(*old(buf)) + seq![prefix] + encode_utf8(value@) + crlf(),
{
    buf_extend(buf, &[prefix]);
    buf_extend(buf, value.as_str().as_bytes());
    buf_extend(buf, &[CR, LF]);
    assert(contents(*buf) =~= contents(*old(buf)) + seq![prefix] + encode_utf8(value@) + crlf());
}

/// Appends a prefix byte, the decimal digits of `n`, and `\r\n`.
fn encode_count(prefix: u8, n: u64, buf: &mut BytesMut)
    ensures
        contents(*final(buf)) == contents(*old(buf)) + seq![prefix] + decimal(n as nat) + crlf(),
{
    buf_extend(buf, &[prefix]);
    let digits = decimal_bytes(n);
    buf_extend(buf, digits.as_slice());
    buf_extend(buf, &[CR, LF]);
    assert(contents(*buf) =~= contents(*old(buf)) + seq![prefix] + decimal(n as nat) + crlf());
}

fn encode_ref(resp: &RespValue, buf: &mut BytesMut)
    ensures
        contents(*final(buf)) == contents(*old(buf)) + encoding(resp@),
    decreases resp,
{
    match resp {
        RespValue::Null => {
            buf_extend(buf, &[36, 45, 49, CR, LF]);
        },
        RespValue::SimpleString(value) => encode_string(43, value.clone(), buf),
        RespValue::Error(value, _detail) => encode_string(45, value.clone(), buf),
        RespValue::Integer(n) => {
            let n = *n;
            if n < 0 {
                let m: u64 = if n == i64::MIN {
                    9223372036854775808u64
                } else {
                    (-n) as u64
                };
                buf_extend(buf, &[58, 45]);
                let digits = decimal_bytes(m);
                buf_extend(buf, digits.as_slice());
                buf_extend(buf, &[CR, LF]);
                assert(contents(*buf) =~= contents(*old(buf)) + encoding(resp@));
            } else {
                encode_count(58, n as u64, buf);
            }
        },
        RespValue::BulkString(BulkString(value)) => {
            encode_count(36, value.len() as u64, buf);
            buf_extend(buf, value.as_slice());
            buf_extend(buf, &[CR, LF]);
            assert(contents(*buf) =~= contents(*old(buf)) + encoding(resp@));
        },
        RespValue::Array(values) => {
            let ghost ws = resp@->Array_0;
            encode_count(42, values.len() as u64, buf);
            let ghost head = contents(*buf);
            let mut i: usize = 0;
            while i < values.len()
                invariant
                    resp is Array,
                    (*resp)->Array_0 == *values,
                    i <= values@.len(),
                    ws.len() == values@.len(),
                    forall|j: int| 0 <= j < ws.len() ==> ws[j] == wire_of(#[trigger] values@[j]),
                    contents(*buf) + encodings_from(ws, i as int) == head + encodings_from(ws, 0),
                decreases values@.len() - i,
            {
                let ghost before = contents(*buf);
                proof {
                    vstd::std_specs::vec::axiom_vec_index_decreases(*values, i as int);
                    assert(*values == (*resp)->Array_0);
                    assert(decreases_to!(*resp => (*resp)->Array_0));
                    assert(decreases_to!(*resp => values[i as int]));
                }
                encode_ref(&values[i], buf);
                assert(before + encodings_from(ws, i as int) =~= contents(*buf) + encodings_from(ws, i + 1));
                i = i + 1;
            }
            assert(contents(*buf) + encodings_from(ws, i as int) =~= contents(*buf));
            assert(contents(*buf) =~= contents(*old(buf)) + encoding(resp@));
        },
    }
}

/// Appends the bytes that stand for `resp`.
pub fn encode(resp: RespValue, buf: &mut BytesMut)
    ensures
        contents(*final(buf)) == contents(*old(buf)) + encoding(resp@),
{
    encode_ref(&resp, buf);
}

} // verus!
