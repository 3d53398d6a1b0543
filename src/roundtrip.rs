use vstd::prelude::*;

use crate::encoder::{crlf, decimal, encoding, encodings_from};
use crate::parser::{
    all_digits, array_at, bulk_at, decode, digits_value, elems_at, int_line, int_text, is_digit,
    line_end, parse_i64, Parsed, CR, LF,
};
use crate::types::Wire;

verus! {

proof fn lemma_decimal(n: nat)
    ensures
        decimal(n).len() >= 1,
        forall|i: int| 0 <= i < decimal(n).len() ==> is_digit(#[trigger] decimal(n)[i]),
        digits_value(decimal(n)) == n,
    decreases n,
{
    if n < 10 {
        assert(decimal(n).drop_last() =~= Seq::<u8>::empty());
        assert(decimal(n).last() == 48 + n);
        assert(digits_value(Seq::<u8>::empty()) == 0);
    } else {
        lemma_decimal(n / 10);
        assert(decimal(n).drop_last() =~= decimal(n / 10));
        vstd::arithmetic::div_mod::lemma_fundamental_div_mod(n as int, 10);
        assert(n % 10 < 10);
        assert(decimal(n).last() == 48 + n % 10);
        assert(digits_value(decimal(n)) == digits_value(decimal(n / 10)) * 10 + n % 10);
    }
}

proof fn lemma_line_end_at(s: Seq<u8>, start: int, e: int)
    requires
        0 <= start <= e,
        e + 1 < s.len(),
        s[e] == CR,
        s[e + 1] == LF,
        forall|j: int| start <= j < e ==> s[j] != CR,
    ensures
        line_end(s, start) == Some(e),
    decreases e - start,
{
    if start < e {
        lemma_line_end_at(s, start + 1, e);
    }
}

/// A length line `<digits>\r\n` read back at `start`.
proof fn lemma_int_line_of(s: Seq<u8>, start: int, n: nat)
    requires
        n <= i64::MAX,
        0 <= start,
        start + decimal(n).len() + 2 <= s.len(),
        s.subrange(start, start + decimal(n).len() + 2) == decimal(n) + crlf(),
    ensures
        int_line(s, start) == Parsed::<int>::Done(n as int, start + decimal(n).len() + 2),
{
    let d = decimal(n);
    let e = start + d.len();
    lemma_decimal(n);
    assert forall|j: int| start <= j < e implies s[j] != CR by {
        assert(s[j] == s.subrange(start, e + 2)[j - start]);
        assert(is_digit(d[j - start]));
    }
    assert(s[e] == s.subrange(start, e + 2)[d.len() as int]);
    assert(s[e + 1] == s.subrange(start, e + 2)[d.len() as int + 1]);
    lemma_line_end_at(s, start, e);
    assert(s.subrange(start, e) =~= d) by {
        assert forall|j: int| 0 <= j < d.len() implies s.subrange(start, e)[j] == d[j] by {
            assert(s.subrange(start, e + 2)[j] == s[start + j]);
        }
    }
    assert(all_digits(d));
    assert(int_text(d) == Some(n as int));
    assert(parse_i64(d) == Some(n as int));
}

/// A bulk string read back where its encoding stands.
proof fn lemma_bulk_of(s: Seq<u8>, pos: int, b: Seq<u8>)
    requires
        0 <= pos,
        b.len() <= i64::MAX,
        pos + encoding(Wire::Bulk(b)).len() <= s.len(),
        s.subrange(pos, pos + encoding(Wire::Bulk(b)).len()) == encoding(Wire::Bulk(b)),
    ensures
        s[pos] == 36,
        bulk_at(s, pos + 1) == Parsed::<Wire>::Done(Wire::Bulk(b), pos + encoding(Wire::Bulk(b)).len()),
{
    let enc = encoding(Wire::Bulk(b));
    let d = decimal(b.len());
    let p = pos + 1 + d.len() + 2;
    assert(s[pos] == enc[0]);
    assert(s.subrange(pos + 1, pos + 1 + d.len() + 2) =~= d + crlf()) by {
        assert forall|j: int| 0 <= j < d.len() + 2 implies s.subrange(pos + 1, pos + 1 + d.len() + 2)[j] == (d + crlf())[j] by {
            assert(s[pos + 1 + j] == enc[1 + j]);
        }
    }
    lemma_int_line_of(s, pos + 1, b.len());
    assert(s[p + b.len()] == enc[1 + d.len() as int + 2 + b.len()]);
    assert(s[p + b.len() + 1] == enc[1 + d.len() as int + 2 + b.len() + 1]);
    assert(s.subrange(p, p + b.len()) =~= b) by {
        assert forall|j: int| 0 <= j < b.len() implies s.subrange(p, p + b.len())[j] == b[j] by {
            assert(s[p + j] == enc[1 + d.len() + 2 + j]);
        }
    }
}

/// A null element read back where its encoding, `$-1\r\n`, stands.
proof fn lemma_null_of(s: Seq<u8>, pos: int)
    requires
        0 <= pos,
        pos + 5 <= s.len(),
        s.subrange(pos, pos + 5) == encoding(Wire::Null),
    ensures
        s[pos] == 36,
        bulk_at(s, pos + 1) == Parsed::<Wire>::Done(Wire::Null, pos + 5),
{
    let enc = encoding(Wire::Null);
    assert forall|j: int| 0 <= j < 5 implies s[pos + j] == enc[j] by {
        assert(s.subrange(pos, pos + 5)[j] == s[pos + j]);
    }
    lemma_line_end_at(s, pos + 1, pos + 3);
    let t = s.subrange(pos + 1, pos + 3);
    assert(t =~= seq![45u8, 49u8]);
    assert(t.drop_first() =~= seq![49u8]);
    assert(seq![49u8].drop_last() =~= Seq::<u8>::empty());
    assert(digits_value(Seq::<u8>::empty()) == 0);
    assert(seq![49u8].last() == 49);
    assert(digits_value(seq![49u8]) == digits_value(seq![49u8].drop_last()) * 10 + (49 - 48));
    assert(digits_value(seq![49u8]) == 1);
    assert(all_digits(t.drop_first()));
    assert(int_text(t) == Some(-1int));
}

/// The elements of `ws[i..]` read back where their encodings stand.
proof fn lemma_elems_of(s: Seq<u8>, pos: int, ws: Seq<Wire>, i: int)
    requires
        0 <= pos,
        0 <= i <= ws.len(),
        forall|j: int| 0 <= j < ws.len() ==> element_shaped(#[trigger] ws[j]),
        pos + encodings_from(ws, i).len() <= s.len(),
        s.subrange(pos, pos + encodings_from(ws, i).len()) == encodings_from(ws, i),
    ensures
        elems_at(s, pos, (ws.len() - i) as nat) == Parsed::<Seq<Wire>>::Done(
            ws.subrange(i, ws.len() as int),
            pos + encodings_from(ws, i).len(),
        ),
    decreases ws.len() - i,
{
    if i == ws.len() {
        assert(ws.subrange(i, ws.len() as int) =~= Seq::<Wire>::empty());
    } else {
        let all = encodings_from(ws, i);
        let first = encoding(ws[i]);
        let rest = encodings_from(ws, i + 1);
        assert(all == first + rest);
        assert(s.subrange(pos, pos + first.len()) =~= first) by {
            assert forall|j: int| 0 <= j < first.len() implies s.subrange(pos, pos + first.len())[j] == first[j] by {
                assert(s[pos + j] == all[j]);
            }
        }
        if ws[i] is Bulk {
            lemma_bulk_of(s, pos, ws[i]->Bulk_0);
        } else {
            lemma_null_of(s, pos);
        }
        assert(s.subrange(pos + first.len(), pos + first.len() + rest.len()) =~= rest) by {
            assert forall|j: int| 0 <= j < rest.len() implies s.subrange(pos + first.len(), pos + first.len() + rest.len())[j] == rest[j] by {
                assert(s[pos + first.len() + j] == all[first.len() + j]);
            }
        }
        lemma_elems_of(s, pos + first.len(), ws, i + 1);
        assert(seq![ws[i]] + ws.subrange(i + 1, ws.len() as int) =~= ws.subrange(i, ws.len() as int));
    }
}

/// What an array element of a request can be: a bulk string whose length a 64-bit signed
/// integer holds, or null.
pub open spec fn element_shaped(w: Wire) -> bool {
    (w is Bulk && w->Bulk_0.len() <= i64::MAX) || w is Null
}

/// Decoding the bytes that encode an array of bulk strings and nulls, the shape of every
/// request, gives the array back and takes all of the bytes.
pub proof fn lemma_round_trip(ws: Seq<Wire>)
    requires
        ws.len() <= i64::MAX,
        forall|j: int| 0 <= j < ws.len() ==> element_shaped(#[trigger] ws[j]),
    ensures
        decode(encoding(Wire::Array(ws))) == Parsed::<Wire>::Done(
            Wire::Array(ws),
            encoding(Wire::Array(ws)).len() as int,
        ),
{
    let s = encoding(Wire::Array(ws));
    let d = decimal(ws.len());
    let body = encodings_from(ws, 0);
    let p: int = 1 + d.len() as int + 2;
    assert(s[0] == 42);
    assert(s.subrange(1, p) =~= d + crlf());
    lemma_int_line_of(s, 1, ws.len());
    assert(s.subrange(p, p + body.len()) =~= body);
    lemma_elems_of(s, p, ws, 0);
    assert(ws.subrange(0, ws.len() as int) =~= ws);
}

} // verus!
