use vstd::prelude::*;

use crate::types::{wire_of, BulkString, RespValue, Wire};

verus! {

pub const CR: u8 = 13;

pub const LF: u8 = 10;

/// Position of the first `\r\n` at or after `start`, if the bytes hold one.
pub open spec fn line_end(s: Seq<u8>, start: int) -> Option<int>
    decreases s.len() - start,
{
    if start < 0 || start + 1 >= s.len() {
        None
    } else if s[start] == CR && s[start + 1] == LF {
        Some(start)
    } else {
        line_end(s, start + 1)
    }
}

pub open spec fn is_digit(b: u8) -> bool {
    48 <= b <= 57
}

pub open spec fn all_digits(d: Seq<u8>) -> bool {
    d.len() > 0 && forall|i: int| 0 <= i < d.len() ==> is_digit(#[trigger] d[i])
}

/// The number that a run of decimal digits denotes.
pub open spec fn digits_value(d: Seq<u8>) -> int
    decreases d.len(),
{
    if d.len() == 0 {
        0
    } else {
        digits_value(d.drop_last()) * 10 + (d.last() - 48)
    }
}

/// The integer that a line's text denotes: an optional sign, then digits.
pub open spec fn int_text(t: Seq<u8>) -> Option<int> {
    if t.len() > 0 && t[0] == 45 && all_digits(t.drop_first()) {
        Some(-digits_value(t.drop_first()))
    } else if t.len() > 0 && t[0] == 43 && all_digits(t.drop_first()) {
        Some(digits_value(t.drop_first()))
    } else if all_digits(t) {
        Some(digits_value(t))
    } else {
        None
    }
}

/// A line's integer, where it is one and fits in 64 signed bits.
pub open spec fn parse_i64(t: Seq<u8>) -> Option<int> {
    match int_text(t) {
        Some(v) => if i64::MIN <= v <= i64::MAX {
            Some(v)
        } else {
            None
        },
        None => None,
    }
}

/// How bytes break the grammar.
#[derive(Debug, Clone, Copy, PartialEq, Eq)]
pub enum Fault {
    /// A length line that is not a signed 64-bit decimal integer.
    BadInteger,
    /// A bulk string's body not followed by `\r\n`.
    BadTerminator,
    /// An array element that does not start with `$`.
    NotBulk,
    /// A command line that is not UTF-8 text.
    BadUtf8,
}

/// Outcome of recognising one grammar element from a position.
pub enum Parsed<T> {
    /// The bytes end before the element does.
    Incomplete,
    /// The bytes break the grammar at the position given, in the way given.
    Invalid(int, Fault),
    /// The element, and the position just after it.
    Done(T, int),
}

/// An integer line (`<digits>\r\n`) from `start`.
pub open spec fn int_line(s: Seq<u8>, start: int) -> Parsed<int> {
    match line_end(s, start) {
        None => Parsed::Incomplete,
        Some(e) => match parse_i64(s.subrange(start, e)) {
            Some(v) => Parsed::Done(v, e + 2),
            None => Parsed::Invalid(start, Fault::BadInteger),
        },
    }
}

/// Whether `s` is the start of `t`.
pub open spec fn is_prefix(s: Seq<u8>, t: Seq<u8>) -> bool {
    s.len() <= t.len() && forall|i: int| 0 <= i < s.len() ==> s[i] == #[trigger] t[i]
}

proof fn lemma_line_end_extend(s: Seq<u8>, t: Seq<u8>, start: int)
    requires
        is_prefix(s, t),
        line_end(s, start) is Some,
    ensures
        line_end(t, start) == line_end(s, start),
        start <= line_end(s, start)->0,
        line_end(s, start)->0 + 2 <= s.len(),
    decreases s.len() - start,
{
    if start < 0 || start + 1 >= s.len() {
    } else if s[start] == CR && s[start + 1] == LF {
        assert(t[start] == s[start] && t[start + 1] == s[start + 1]);
    } else {
        assert(t[start] == s[start] && t[start + 1] == s[start + 1]);
        lemma_line_end_extend(s, t, start + 1);
    }
}

/// Finds the first `\r\n` at or after `start`.
fn find_line_end(buf: &[u8], start: usize) -> (r: Option<usize>)
    ensures
        r matches Some(e) ==> line_end(buf@, start as int) == Some(e as int),
        r is None ==> line_end(buf@, start as int) is None,
{
    let mut i: usize = start;
    while i < buf.len() && buf.len() - i > 1
        invariant
            start <= i,
            line_end(buf@, start as int) == line_end(buf@, i as int),
        decreases buf.len() - i,
    {
        if buf[i] == CR && buf[i + 1] == LF {
            return Some(i);
        }
        i = i + 1;
    }
    None
}

proof fn lemma_digits_nonneg(d: Seq<u8>)
    requires
        forall|i: int| 0 <= i < d.len() ==> is_digit(#[trigger] d[i]),
    ensures
        digits_value(d) >= 0,
    decreases d.len(),
{
    if d.len() > 0 {
        lemma_digits_nonneg(d.drop_last());
    }
}

/// A longer run of digits denotes at least as much as its start.
proof fn lemma_digits_mono(d: Seq<u8>, k: int)
    requires
        0 <= k <= d.len(),
        forall|i: int| 0 <= i < d.len() ==> is_digit(#[trigger] d[i]),
    ensures
        digits_value(d) >= digits_value(d.subrange(0, k)),
    decreases d.len(),
{
    if k < d.len() {
        let p = d.drop_last();
        assert(p.subrange(0, k) =~= d.subrange(0, k));
        lemma_digits_mono(p, k);
        lemma_digits_nonneg(p);
    } else {
        assert(d.subrange(0, k) =~= d);
    }
}

proof fn lemma_not_int(t: Seq<u8>, d: Seq<u8>, i: int)
    requires
        0 <= i < d.len(),
        !is_digit(d[i]),
        (t.len() > 0 && (t[0] == 45 || t[0] == 43) && d == t.drop_first()) || (d == t && t[0] != 45
            && t[0] != 43),
    ensures
        parse_i64(t) is None,
{
    if d == t {
        assert(!all_digits(t));
    } else {
        assert(!all_digits(d));
        assert(!is_digit(t[0]));
        assert(!all_digits(t));
    }
}

/// Reads the integer of `buf[lo..hi]`: an optional sign, then decimal digits.
fn parse_int(buf: &[u8], lo: usize, hi: usize) -> (r: Option<i64>)
    requires
        lo <= hi <= buf@.len(),
    ensures
        match r {
            Some(v) => parse_i64(buf@.subrange(lo as int, hi as int)) == Some(v as int),
            None => parse_i64(buf@.subrange(lo as int, hi as int)) is None,
        },
{
    let ghost t = buf@.subrange(lo as int, hi as int);
    let mut neg = false;
    let mut k: usize = lo;
    if lo < hi && (buf[lo] == 45 || buf[lo] == 43) {
        neg = buf[lo] == 45;
        k = lo + 1;
    }
    let ghost d = buf@.subrange(k as int, hi as int);
    assert(k > lo ==> (t[0] == 45 || t[0] == 43) && !is_digit(t[0]) && (neg <==> t[0] == 45));
    assert(k == lo ==> t.len() == 0 || (t[0] != 45 && t[0] != 43));
    assert(k > lo ==> d =~= t.drop_first());
    assert(k == lo ==> d =~= t);
    if k == hi {
        return None;
    }
    let limit: u64 = 9223372036854775808;
    let mut acc: u64 = 0;
    let mut j: usize = k;
    while j < hi
        invariant
            lo <= k <= j <= hi,
            hi <= buf@.len(),
            d == buf@.subrange(k as int, hi as int),
            limit == 9223372036854775808u64,
            acc <= limit,
            k > lo ==> d =~= t.drop_first(),
            k == lo ==> d =~= t,
            k > lo ==> (t[0] == 45 || t[0] == 43) && !is_digit(t[0]) && (neg <==> t[0] == 45),
            k == lo ==> t.len() == 0 || (t[0] != 45 && t[0] != 43),
            t == buf@.subrange(lo as int, hi as int),
            acc as int == digits_value(d.subrange(0, j - k)),
            forall|i: int| 0 <= i < j - k ==> is_digit(#[trigger] d[i]),
        decreases hi - j,
    {
        let b = buf[j];
        if b < 48 || b > 57 {
            assert(!is_digit(d[j - k]));
            proof {
                lemma_not_int(t, d, j - k);
            }
            return None;
        }
        let digit: u64 = (b - 48) as u64;
        assert(digit <= 9 && limit == 9223372036854775808u64);
        assert(d.subrange(0, j - k + 1).drop_last() =~= d.subrange(0, j - k));
        if acc > (limit - digit) / 10 {
            assert(acc * 10 + digit > limit) by (nonlinear_arith)
                requires acc > (limit - digit) / 10, digit <= 9;
            proof {
                if all_digits(d) {
                    lemma_digits_mono(d, j - k + 1);
                }
            }
            return None;
        }
        assert(acc * 10 + digit <= limit) by (nonlinear_arith)
            requires acc <= (limit - digit) / 10, digit <= 9;
        acc = acc * 10 + digit;
        j = j + 1;
    }
    assert(d.subrange(0, j - k) =~= d);
    if neg {
        if acc == limit {
            Some(-9223372036854775807i64 - 1)
        } else {
            Some(-(acc as i64))
        }
    } else if acc < limit {
        Some(acc as i64)
    } else {
        None
    }
}

pub open spec fn is_cont(b: u8) -> bool {
    0x80 <= b <= 0xBF
}

/// Length of the well-formed UTF-8 sequence that starts at `i`, or 0 where none does.
pub open spec fn utf8_len_at(s: Seq<u8>, i: int) -> int {
    let n = s.len();
    let b = s[i];
    if b <= 0x7F {
        1
    } else if 0xC2 <= b <= 0xDF {
        if i + 1 < n && is_cont(s[i + 1]) {
            2
        } else {
            0
        }
    } else if 0xE0 <= b <= 0xEF {
        if i + 2 < n && is_cont(s[i + 2]) && (if b == 0xE0 {
            0xA0 <= s[i + 1] <= 0xBF
        } else if b == 0xED {
            0x80 <= s[i + 1] <= 0x9F
        } else {
            is_cont(s[i + 1])
        }) {
            3
        } else {
            0
        }
    } else if 0xF0 <= b <= 0xF4 {
        if i + 3 < n && is_cont(s[i + 2]) && is_cont(s[i + 3]) && (if b == 0xF0 {
            0x90 <= s[i + 1] <= 0xBF
        } else if b == 0xF4 {
            0x80 <= s[i + 1] <= 0x8F
        } else {
            is_cont(s[i + 1])
        }) {
            4
        } else {
            0
        }
    } else {
        0
    }
}

pub open spec fn utf8_from(s: Seq<u8>, i: int) -> bool
    decreases s.len() - i,
{
    if i < 0 || i >= s.len() {
        true
    } else {
        let l = utf8_len_at(s, i);
        l > 0 && utf8_from(s, i + l)
    }
}

/// Whether the bytes are well-formed UTF-8.
pub open spec fn is_utf8(s: Seq<u8>) -> bool {
    utf8_from(s, 0)
}

/// Length of the white-space character (in Unicode's sense) encoded at `i`, or 0.
pub open spec fn space_len_at(s: Seq<u8>, i: int) -> int {
    let n = s.len();
    let b = s[i];
    if b == 0x20 || (0x09 <= b <= 0x0D) {
        1
    } else if b == 0xC2 && i + 1 < n && (s[i + 1] == 0x85 || s[i + 1] == 0xA0) {
        2
    } else if i + 2 < n && ((b == 0xE1 && s[i + 1] == 0x9A && s[i + 2] == 0x80) || (b == 0xE2
        && s[i + 1] == 0x80 && (s[i + 2] <= 0x8A || s[i + 2] == 0xA8 || s[i + 2] == 0xA9
        || s[i + 2] == 0xAF) && s[i + 2] >= 0x80) || (b == 0xE2 && s[i + 1] == 0x81 && s[i + 2]
        == 0x9F) || (b == 0xE3 && s[i + 1] == 0x80 && s[i + 2] == 0x80)) {
        3
    } else {
        0
    }
}

pub open spec fn word_if_any(cur: Seq<u8>) -> Seq<Seq<u8>> {
    if cur.len() > 0 {
        seq![cur]
    } else {
        Seq::empty()
    }
}

/// The words of `s` from `i` on, `cur` being the part of a word already read.
pub open spec fn words_from(s: Seq<u8>, i: int, cur: Seq<u8>) -> Seq<Seq<u8>>
    decreases s.len() - i,
{
    if i < 0 || i >= s.len() {
        word_if_any(cur)
    } else {
        let w = space_len_at(s, i);
        if w > 0 {
            word_if_any(cur) + words_from(s, i + w, Seq::empty())
        } else {
            words_from(s, i + 1, cur.push(s[i]))
        }
    }
}

/// The maximal runs of non-white-space characters of a line, in order.
pub open spec fn words(s: Seq<u8>) -> Seq<Seq<u8>> {
    words_from(s, 0, Seq::empty())
}

/// Checks that `buf[..end]` is well-formed UTF-8.
fn check_utf8(buf: &[u8], end: usize) -> (r: bool)
    requires
        end <= buf@.len(),
    ensures
        r == is_utf8(buf@.subrange(0, end as int)),
{
    let ghost l = buf@.subrange(0, end as int);
    let mut i: usize = 0;
    while i < end
        invariant
            i <= end <= buf@.len(),
            l == buf@.subrange(0, end as int),
            utf8_from(l, i as int) == is_utf8(l),
        decreases end - i,
    {
        let b = buf[i];
        let cont1 = end - i > 1 && buf[i + 1] >= 0x80 && buf[i + 1] <= 0xBF;
        let cont2 = end - i > 2 && buf[i + 2] >= 0x80 && buf[i + 2] <= 0xBF;
        let cont3 = end - i > 3 && buf[i + 3] >= 0x80 && buf[i + 3] <= 0xBF;
        let len: usize = if b <= 0x7F {
            1
        } else if b >= 0xC2 && b <= 0xDF {
            if cont1 {
                2
            } else {
                0
            }
        } else if b >= 0xE0 && b <= 0xEF {
            let second_ok = end - i > 1 && if b == 0xE0 {
                buf[i + 1] >= 0xA0 && buf[i + 1] <= 0xBF
            } else if b == 0xED {
                buf[i + 1] >= 0x80 && buf[i + 1] <= 0x9F
            } else {
                buf[i + 1] >= 0x80 && buf[i + 1] <= 0xBF
            };
            if cont2 && second_ok {
                3
            } else {
                0
            }
        } else if b >= 0xF0 && b <= 0xF4 {
            let second_ok = end - i > 1 && if b == 0xF0 {
                buf[i + 1] >= 0x90 && buf[i + 1] <= 0xBF
            } else if b == 0xF4 {
                buf[i + 1] >= 0x80 && buf[i + 1] <= 0x8F
            } else {
                buf[i + 1] >= 0x80 && buf[i + 1] <= 0xBF
            };
            if cont2 && cont3 && second_ok {
                4
            } else {
                0
            }
        } else {
            0
        };
        assert(len == utf8_len_at(l, i as int));
        if len == 0 {
            return false;
        }
        i = i + len;
    }
    true
}

/// Length of the white-space character at `buf[i]`, reading no further than `end`.
fn space_len(buf: &[u8], end: usize, i: usize) -> (r: usize)
    requires
        i < end <= buf@.len(),
    ensures
        r == space_len_at(buf@.subrange(0, end as int), i as int),
{
    let b = buf[i];
    if b == 0x20 || (b >= 0x09 && b <= 0x0D) {
        1
    } else if b == 0xC2 && end - i > 1 && (buf[i + 1] == 0x85 || buf[i + 1] == 0xA0) {
        2
    } else if end - i > 2 && ((b == 0xE1 && buf[i + 1] == 0x9A && buf[i + 2] == 0x80) || (b
        == 0xE2 && buf[i + 1] == 0x80 && (buf[i + 2] <= 0x8A || buf[i + 2] == 0xA8 || buf[i
        + 2] == 0xA9 || buf[i + 2] == 0xAF) && buf[i + 2] >= 0x80) || (b == 0xE2 && buf[i + 1]
        == 0x81 && buf[i + 2] == 0x9F) || (b == 0xE3 && buf[i + 1] == 0x80 && buf[i + 2]
        == 0x80)) {
        3
    } else {
        0
    }
}

/// Splits `buf[..end]` into its words.
fn split_words(buf: &[u8], end: usize) -> (r: Vec<Vec<u8>>)
    requires
        end <= buf@.len(),
    ensures
        r@.map_values(|w: Vec<u8>| w@) == words(buf@.subrange(0, end as int)),
{
    let ghost l = buf@.subrange(0, end as int);
    let mut out: Vec<Vec<u8>> = Vec::new();
    let mut cur: Vec<u8> = Vec::new();
    let mut i: usize = 0;
    while i < end
        invariant
            i <= end <= buf@.len(),
            l == buf@.subrange(0, end as int),
            out@.map_values(|w: Vec<u8>| w@) + words_from(l, i as int, cur@) == words(l),
        decreases end - i,
    {
        let w = space_len(buf, end, i);
        if w > 0 {
            let ghost before = out@.map_values(|w: Vec<u8>| w@);
            if cur.len() > 0 {
                out.push(cur);
                assert(out@.map_values(|w: Vec<u8>| w@) =~= before + word_if_any(cur@));
            } else {
                assert(before + word_if_any(cur@) =~= before);
            }
            assert(words_from(l, i as int, cur@) == word_if_any(cur@) + words_from(l, i + w, Seq::empty()));
            cur = Vec::new();
            i = i + w;
        } else {
            cur.push(buf[i]);
            i = i + 1;
        }
    }
    if cur.len() > 0 {
        out.push(cur);
    }
    out
}

/// A bulk string from `start`, just after its `$`: `<len>\r\n<len bytes>\r\n`, or the
/// null value where `<len>` is negative.
pub open spec fn bulk_at(s: Seq<u8>, start: int) -> Parsed<Wire> {
    match int_line(s, start) {
        Parsed::Incomplete => Parsed::Incomplete,
        Parsed::Invalid(at, f) => Parsed::Invalid(at, f),
        Parsed::Done(len, p) => if len < 0 {
            Parsed::Done(Wire::Null, p)
        } else if s.len() < p + len + 2 {
            Parsed::Incomplete
        } else if s[p + len] == CR && s[p + len + 1] == LF {
            Parsed::Done(Wire::Bulk(s.subrange(p, p + len)), p + len + 2)
        } else {
            Parsed::Invalid(p + len, Fault::BadTerminator)
        },
    }
}

/// Puts `items` before the elements that `r` recognised.
pub open spec fn prepend(items: Seq<Wire>, r: Parsed<Seq<Wire>>) -> Parsed<Seq<Wire>> {
    match r {
        Parsed::Incomplete => Parsed::Incomplete,
        Parsed::Invalid(at, f) => Parsed::Invalid(at, f),
        Parsed::Done(rest, q) => Parsed::Done(items + rest, q),
    }
}

/// `n` bulk strings, each with its `$`, from `pos`.
pub open spec fn elems_at(s: Seq<u8>, pos: int, n: nat) -> Parsed<Seq<Wire>>
    decreases n,
{
    if n == 0 {
        Parsed::Done(Seq::empty(), pos)
    } else if pos < 0 || pos >= s.len() {
        Parsed::Incomplete
    } else if s[pos] != 36 {
        Parsed::Invalid(pos, Fault::NotBulk)
    } else {
        match bulk_at(s, pos + 1) {
            Parsed::Incomplete => Parsed::Incomplete,
            Parsed::Invalid(at, f) => Parsed::Invalid(at, f),
            Parsed::Done(w, q) => prepend(seq![w], elems_at(s, q, (n - 1) as nat)),
        }
    }
}

/// An array from `start`, just after its `*`: `<n>\r\n` and `n` bulk strings, or the
/// null value where `<n>` is negative.
pub open spec fn array_at(s: Seq<u8>, start: int) -> Parsed<Wire> {
    match int_line(s, start) {
        Parsed::Incomplete => Parsed::Incomplete,
        Parsed::Invalid(at, f) => Parsed::Invalid(at, f),
        Parsed::Done(n, p) => if n < 0 {
            Parsed::Done(Wire::Null, p)
        } else {
            match elems_at(s, p, n as nat) {
                Parsed::Incomplete => Parsed::Incomplete,
                Parsed::Invalid(at, f) => Parsed::Invalid(at, f),
                Parsed::Done(items, q) => Parsed::Done(Wire::Array(items), q),
            }
        },
    }
}

/// A plain command line: its words, each as a bulk string, in an array.
pub open spec fn command_line(l: Seq<u8>) -> Wire {
    Wire::Array(words(l).map_values(|w: Seq<u8>| Wire::Bulk(w)))
}

/// The first request at the start of `s`: an array of bulk strings after `*`, or else a
/// plain line of words.
pub open spec fn decode(s: Seq<u8>) -> Parsed<Wire> {
    if s.len() == 0 {
        Parsed::Incomplete
    } else if s[0] == 42 {
        array_at(s, 1)
    } else {
        match line_end(s, 0) {
            None => Parsed::Incomplete,
            Some(e) => if is_utf8(s.subrange(0, e)) {
                Parsed::Done(command_line(s.subrange(0, e)), e + 2)
            } else {
                Parsed::Invalid(0, Fault::BadUtf8)
            },
        }
    }
}

/// What one attempt to decode a request from the start of a buffer gives.
#[derive(Debug)]
pub enum DecodeStep {
    /// More bytes are needed before the request is whole.
    Incomplete,
    /// The bytes break the grammar: where, and how.
    Invalid(usize, Fault),
    /// A request, and how many bytes it took.
    Value(RespValue, usize),
}

impl View for DecodeStep {
    type V = Parsed<Wire>;

    open spec fn view(&self) -> Parsed<Wire> {
        match self {
            DecodeStep::Incomplete => Parsed::Incomplete,
            DecodeStep::Invalid(at, f) => Parsed::Invalid(*at as int, *f),
            DecodeStep::Value(v, n) => Parsed::Done(v@, *n as int),
        }
    }
}

enum IntLine {
    Incomplete,
    Invalid(usize),
    Done(i64, usize),
}

impl IntLine {
    spec fn view(&self) -> Parsed<int> {
        match self {
            IntLine::Incomplete => Parsed::Incomplete,
            IntLine::Invalid(at) => Parsed::Invalid(*at as int, Fault::BadInteger),
            IntLine::Done(v, p) => Parsed::Done(*v as int, *p as int),
        }
    }
}

fn read_int_line(buf: &[u8], start: usize) -> (r: IntLine)
    ensures
        r.view() == int_line(buf@, start as int),
        r matches IntLine::Done(_, p) ==> start < p <= buf@.len(),
{
    match find_line_end(buf, start) {
        None => IntLine::Incomplete,
        Some(e) => {
            let len: usize = buf.len();
            proof {
                lemma_line_end_extend(buf@, buf@, start as int);
                assert(e + 2 <= len);
            }
            match parse_int(buf, start, e) {
                Some(v) => IntLine::Done(v, e + 2),
                None => IntLine::Invalid(start),
            }
        },
    }
}

/// Copies `buf[lo..hi]`.
fn copy_range(buf: &[u8], lo: usize, hi: usize) -> (r: Vec<u8>)
    requires
        lo <= hi <= buf@.len(),
    ensures
        r@ == buf@.subrange(lo as int, hi as int),
{
    let mut out: Vec<u8> = Vec::new();
    let mut i: usize = lo;
    while i < hi
        invariant
            lo <= i <= hi <= buf@.len(),
            out@ == buf@.subrange(lo as int, i as int),
        decreases hi - i,
    {
        out.push(buf[i]);
        i = i + 1;
        assert(out@ =~= buf@.subrange(lo as int, i as int));
    }
    out
}

fn read_bulk(buf: &[u8], start: usize) -> (r: DecodeStep)
    ensures
        r@ == bulk_at(buf@, start as int),
        r matches DecodeStep::Value(_, p) ==> start < p <= buf@.len(),
{
    match read_int_line(buf, start) {
        IntLine::Incomplete => DecodeStep::Incomplete,
        IntLine::Invalid(at) => DecodeStep::Invalid(at, Fault::BadInteger),
        IntLine::Done(len, p) => {
            if len < 0 {
                DecodeStep::Value(RespValue::Null, p)
            } else {
                let len = len as u64;
                if ((buf.len() - p) as u64) < 2 || len > ((buf.len() - p) as u64) - 2 {
                    DecodeStep::Incomplete
                } else {
                    let end = p + len as usize;
                    if buf[end] == CR && buf[end + 1] == LF {
                        let data = copy_range(buf, p, end);
                        DecodeStep::Value(RespValue::BulkString(BulkString(data)), end + 2)
                    } else {
                        DecodeStep::Invalid(end, Fault::BadTerminator)
                    }
                }
            }
        },
    }
}

proof fn lemma_prepend_assoc(a: Seq<Wire>, b: Seq<Wire>, r: Parsed<Seq<Wire>>)
    ensures
        prepend(a, prepend(b, r)) == prepend(a + b, r),
{
    if let Parsed::Done(rest, q) = r {
        assert(a + (b + rest) =~= (a + b) + rest);
    }
}

/// `n` bulk strings from `start`, gathered into an array.
fn read_array_items(buf: &[u8], start: usize, n: u64) -> (r: DecodeStep)
    requires
        start <= buf@.len(),
    ensures
        r@ == (match elems_at(buf@, start as int, n as nat) {
            Parsed::Incomplete => Parsed::Incomplete,
            Parsed::Invalid(at, f) => Parsed::Invalid(at, f),
            Parsed::Done(items, q) => Parsed::Done(Wire::Array(items), q),
        }),
        r matches DecodeStep::Value(_, p) ==> p <= buf@.len(),
{
    let mut out: Vec<RespValue> = Vec::new();
    let ghost items: Seq<Wire> = Seq::empty();
    let mut pos: usize = start;
    let mut k: u64 = 0;
    while k < n
        invariant
            k <= n,
            start <= pos <= buf@.len(),
            items.len() == out@.len(),
            forall|j: int| 0 <= j < items.len() ==> wire_of(#[trigger] out@[j]) == items[j],
            prepend(items, elems_at(buf@, pos as int, (n - k) as nat)) == elems_at(
                buf@,
                start as int,
                n as nat,
            ),
        decreases n - k,
    {
        if pos >= buf.len() {
            return DecodeStep::Incomplete;
        }
        if buf[pos] != 36 {
            return DecodeStep::Invalid(pos, Fault::NotBulk);
        }
        match read_bulk(buf, pos + 1) {
            DecodeStep::Value(v, q) => {
                proof {
                    lemma_prepend_assoc(items, seq![v@], elems_at(buf@, q as int, (n - k - 1) as nat));
                    items = items + seq![v@];
                }
                out.push(v);
                pos = q;
                k = k + 1;
            },
            DecodeStep::Incomplete => {
                return DecodeStep::Incomplete;
            },
            DecodeStep::Invalid(at, f) => {
                return DecodeStep::Invalid(at, f);
            },
        }
    }
    let r = RespValue::Array(out);
    assert(items + Seq::<Wire>::empty() =~= items);
    proof {
        let w = wire_of(r);
        assert(w->Array_0 =~= items);
    }
    DecodeStep::Value(r, pos)
}

/// An array from `start`, just after its `*`.
fn read_array(buf: &[u8], start: usize) -> (r: DecodeStep)
    ensures
        r@ == array_at(buf@, start as int),
        r matches DecodeStep::Value(_, p) ==> p <= buf@.len(),
{
    match read_int_line(buf, start) {
        IntLine::Incomplete => DecodeStep::Incomplete,
        IntLine::Invalid(at) => DecodeStep::Invalid(at, Fault::BadInteger),
        IntLine::Done(n, p) => {
            if n < 0 {
                DecodeStep::Value(RespValue::Null, p)
            } else {
                read_array_items(buf, p, n as u64)
            }
        },
    }
}

/// The words of `buf[..end]`, each as a bulk string, in an array.
fn read_command_line(buf: &[u8], end: usize) -> (r: RespValue)
    requires
        end <= buf@.len(),
    ensures
        r@ == command_line(buf@.subrange(0, end as int)),
{
    let mut parts = split_words(buf, end);
    let ghost ws = words(buf@.subrange(0, end as int));
    let mut out: Vec<RespValue> = Vec::new();
    let mut i: usize = 0;
    assert forall|j: int| 0 <= j < ws.len() implies parts@[j]@ == ws[j] by {
        assert(parts@.map_values(|w: Vec<u8>| w@)[j] == parts@[j]@);
    }
    while i < parts.len()
        invariant
            i <= parts@.len(),
            parts@.len() == ws.len(),
            forall|j: int| i <= j < ws.len() ==> (#[trigger] parts@[j])@ == ws[j],
            out@.len() == i,
            forall|j: int| 0 <= j < i ==> wire_of(#[trigger] out@[j]) == Wire::Bulk(ws[j]),
        decreases parts@.len() - i,
    {
        let mut word: Vec<u8> = Vec::new();
        std::mem::swap(&mut word, &mut parts[i]);
        assert(word@ == ws[i as int]);
        out.push(RespValue::BulkString(BulkString(word)));
        i = i + 1;
    }
    let r = RespValue::Array(out);
    proof {
        let w = wire_of(r);
        assert(w->Array_0 =~= ws.map_values(|w: Seq<u8>| Wire::Bulk(w)));
    }
    r
}

/// Decodes the request at the start of `buf`.
pub fn decode_value(buf: &[u8]) -> (r: DecodeStep)
    ensures
        r@ == decode(buf@),
        r matches DecodeStep::Value(_, p) ==> p <= buf@.len(),
{
    if buf.len() == 0 {
        DecodeStep::Incomplete
    } else if buf[0] == 42 {
        read_array(buf, 1)
    } else {
        match find_line_end(buf, 0) {
            None => DecodeStep::Incomplete,
            Some(e) => {
                let len: usize = buf.len();
                proof {
                    lemma_line_end_extend(buf@, buf@, 0);
                    assert(e + 2 <= len);
                }
                if check_utf8(buf, e) {
                    DecodeStep::Value(read_command_line(buf, e), e + 2)
                } else {
                    DecodeStep::Invalid(0, Fault::BadUtf8)
                }
            },
        }
    }
}

proof fn lemma_sub_same(s: Seq<u8>, t: Seq<u8>, lo: int, hi: int)
    requires
        is_prefix(s, t),
        0 <= lo <= hi <= s.len(),
    ensures
        t.subrange(lo, hi) == s.subrange(lo, hi),
{
    assert(t.subrange(lo, hi) =~= s.subrange(lo, hi));
}

proof fn lemma_int_line_extend(s: Seq<u8>, t: Seq<u8>, start: int)
    requires
        is_prefix(s, t),
        !(int_line(s, start) is Incomplete),
    ensures
        int_line(t, start) == int_line(s, start),
        int_line(s, start) matches Parsed::Done(_, p) ==> start < p <= s.len(),
{
    lemma_line_end_extend(s, t, start);
    let e = line_end(s, start)->0;
    lemma_sub_same(s, t, start, e);
}

proof fn lemma_bulk_extend(s: Seq<u8>, t: Seq<u8>, start: int)
    requires
        is_prefix(s, t),
        !(bulk_at(s, start) is Incomplete),
    ensures
        bulk_at(t, start) == bulk_at(s, start),
        bulk_at(s, start) matches Parsed::Done(_, p) ==> start < p <= s.len(),
{
    lemma_int_line_extend(s, t, start);
    if let Parsed::Done(len, p) = int_line(s, start) {
        if len >= 0 {
            assert(t[p + len] == s[p + len] && t[p + len + 1] == s[p + len + 1]);
            lemma_sub_same(s, t, p, p + len);
        }
    }
}

proof fn lemma_elems_extend(s: Seq<u8>, t: Seq<u8>, pos: int, n: nat)
    requires
        is_prefix(s, t),
        0 <= pos <= s.len(),
        !(elems_at(s, pos, n) is Incomplete),
    ensures
        elems_at(t, pos, n) == elems_at(s, pos, n),
        elems_at(s, pos, n) matches Parsed::Done(_, p) ==> pos <= p <= s.len(),
    decreases n,
{
    if n > 0 {
        assert(t[pos] == s[pos]);
        if s[pos] == 36 {
            lemma_bulk_extend(s, t, pos + 1);
            if let Parsed::Done(w, q) = bulk_at(s, pos + 1) {
                lemma_elems_extend(s, t, q, (n - 1) as nat);
            }
        }
    }
}

/// Once the bytes at hand settle the first request, or show the input broken, no bytes
/// that come after them change the outcome; and a request never takes more bytes than
/// were there. So a stream decodes to the same requests and byte counts however it is cut
/// into reads.
pub proof fn lemma_decode_extends(s: Seq<u8>, t: Seq<u8>)
    requires
        !(decode(s) is Incomplete),
    ensures
        decode(s + t) == decode(s),
        decode(s) matches Parsed::Done(_, n) ==> 0 < n <= s.len(),
{
    let u = s + t;
    assert(is_prefix(s, u));
    assert(u[0] == s[0]);
    if s[0] == 42 {
        lemma_int_line_extend(s, u, 1);
        if let Parsed::Done(n, p) = int_line(s, 1) {
            if n >= 0 {
                lemma_elems_extend(s, u, p, n as nat);
            }
        }
    } else {
        lemma_line_end_extend(s, u, 0);
        let e = line_end(s, 0)->0;
        lemma_sub_same(s, u, 0, e);
    }
}

} // verus!
