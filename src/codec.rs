use vstd::prelude::*;
use vstd::slice::slice_subrange;
use vstd::string::*;
use vstd::utf8::*;
use crate::value::{Resp, Value};

verus! {

/// Why a byte buffer is not a RESP value.
#[derive(Debug, Clone, Copy, PartialEq, Eq, Structural)]
pub enum ProtocolError {
    /// The buffer is not valid UTF-8.
    InvalidUtf8,
    /// The input ended where another line was expected.
    MissingLine,
    /// A line is empty or starts with no known type marker.
    UnknownPrefix,
    /// An array header does not hold a 64-bit signed decimal count.
    BadCount,
}

/// The lines of `t[s..]`, where the current line started at `s` and the
/// scan for its terminator has reached `p`.
pub open spec fn lines_from(t: Seq<char>, s: int, p: int) -> Seq<Seq<char>>
    decreases t.len() - p,
{
    if s < 0 || p < s || p + 1 >= t.len() {
        seq![t.subrange(s, t.len() as int)]
    } else if t[p] == '\r' && t[p + 1] == '\n' {
        seq![t.subrange(s, p)] + lines_from(t, p + 2, p + 2)
    } else {
        lines_from(t, s, p + 1)
    }
}

/// The text cut at every terminator; the last line is what follows the
/// last terminator, possibly empty.
pub open spec fn split_lines(t: Seq<char>) -> Seq<Seq<char>> {
    lines_from(t, 0, 0)
}

pub open spec fn is_digit(c: char) -> bool {
    '0' <= c <= '9'
}

pub open spec fn digit_value(c: char) -> int {
    c as u32 as int - 48
}

pub open spec fn all_digits(s: Seq<char>) -> bool {
    s.len() > 0 && forall|i: int| 0 <= i < s.len() ==> is_digit(#[trigger] s[i])
}

/// The number that a sequence of decimal digits denotes.
pub open spec fn digits_value(s: Seq<char>) -> int
    decreases s.len(),
{
    if s.len() == 0 {
        0
    } else {
        digits_value(s.drop_last()) * 10 + digit_value(s.last())
    }
}

/// The 64-bit signed integer that `s` spells: an optional sign, then at
/// least one decimal digit.
pub open spec fn parse_count(s: Seq<char>) -> Option<int> {
    let signed = s.len() > 0 && (s[0] == '-' || s[0] == '+');
    let digits = if signed { s.drop_first() } else { s };
    if !all_digits(digits) {
        None
    } else if signed && s[0] == '-' {
        if digits_value(digits) <= 0x8000_0000_0000_0000 {
            Some(-digits_value(digits))
        } else {
            None
        }
    } else if digits_value(digits) <= 0x7fff_ffff_ffff_ffff {
        Some(digits_value(digits))
    } else {
        None
    }
}

/// Decodes the value whose first line is `lines[k]`; on success, also the
/// index of the first line after it.
pub open spec fn parse_value(lines: Seq<Seq<char>>, k: int) -> Result<(Resp, int), ProtocolError>
    decreases lines.len() - k, 0int,
{
    if k < 0 || k >= lines.len() {
        Err(ProtocolError::MissingLine)
    } else {
        let l = lines[k];
        if l.len() == 0 {
            Err(ProtocolError::UnknownPrefix)
        } else if l[0] == '*' {
            match parse_count(l.drop_first()) {
                None => Err(ProtocolError::BadCount),
                Some(n) => if n == -1 {
                    Ok((Resp::Nil, k + 1))
                } else if n < 0 {
                    Ok((Resp::Array(Seq::empty()), k + 1))
                } else {
                    match parse_items(lines, k + 1, n as nat) {
                        Ok((items, next)) => Ok((Resp::Array(items), next)),
                        Err(e) => Err(e),
                    }
                },
            }
        } else if l[0] == '$' {
            if k + 1 >= lines.len() {
                Err(ProtocolError::MissingLine)
            } else {
                Ok((Resp::BulkString(lines[k + 1]), k + 2))
            }
        } else if l[0] == '+' {
            Ok((Resp::SimpleString(l.drop_first()), k + 1))
        } else if l[0] == '-' {
            Ok((Resp::Error(l.drop_first()), k + 1))
        } else if l[0] == ':' {
            Ok((Resp::Integer(l.drop_first()), k + 1))
        } else {
            Err(ProtocolError::UnknownPrefix)
        }
    }
}

/// Decodes `n` values one after the other, the first starting at `lines[k]`.
pub open spec fn parse_items(lines: Seq<Seq<char>>, k: int, n: nat) -> Result<
    (Seq<Resp>, int),
    ProtocolError,
>
    decreases lines.len() - k, n + 1,
{
    if n == 0 {
        Ok((Seq::empty(), k))
    } else {
        match parse_value(lines, k) {
            Err(e) => Err(e),
            Ok((v, next)) => if next <= k || next > lines.len() {
                Err(ProtocolError::MissingLine)
            } else {
                match parse_items(lines, next, (n - 1) as nat) {
                    Err(e) => Err(e),
                    Ok((rest, last)) => Ok((seq![v] + rest, last)),
                }
            },
        }
    }
}

/// What a byte buffer decodes to: its first value, when the buffer is
/// valid UTF-8 and that value is well formed. Lines after it are ignored.
pub open spec fn decode(b: Seq<u8>) -> Result<Resp, ProtocolError> {
    if !valid_utf8(b) {
        Err(ProtocolError::InvalidUtf8)
    } else {
        match parse_value(split_lines(decode_utf8(b)), 0) {
            Ok((v, _)) => Ok(v),
            Err(e) => Err(e),
        }
    }
}

/// Relies on std::str::from_utf8: it succeeds exactly on valid UTF-8, and
/// the text it returns is made of the given bytes.
#[verifier::external_body]
fn utf8_text(b: &[u8]) -> (r: Option<&str>)
    ensures
        match r {
            Some(s) => valid_utf8(b@) && s.spec_bytes() == b@,
            None => !valid_utf8(b@),
        },
{
    std::str::from_utf8(b).ok()
}

/// Relies on str::chars, collected into a Vec: the text's characters in order.
#[verifier::external_body]
fn chars_of(s: &str) -> (r: Vec<char>)
    ensures
        r@ == s@,
{
    s.chars().collect()
}

/// Relies on String's FromIterator over chars: the text of exactly these
/// characters.
#[verifier::external_body]
fn text_of(cs: &[char]) -> (r: String)
    ensures
        r@ == cs@,
{
    cs.iter().collect()
}


/// The lines that a list of spans marks in `t`.
pub open spec fn span_lines(t: Seq<char>, spans: Seq<(usize, usize)>) -> Seq<Seq<char>> {
    Seq::new(spans.len(), |k: int| t.subrange(spans[k].0 as int, spans[k].1 as int))
}

pub open spec fn spans_within(t: Seq<char>, spans: Seq<(usize, usize)>) -> bool {
    forall|k: int| 0 <= k < spans.len() ==> spans[k].0 <= #[trigger] spans[k].1 <= t.len()
}

/// Marks where each line of `t` starts and ends.
fn line_spans(t: &Vec<char>) -> (spans: Vec<(usize, usize)>)
    ensures
        spans_within(t@, spans@),
        span_lines(t@, spans@) == split_lines(t@),
{
    let mut spans: Vec<(usize, usize)> = Vec::new();
    let mut s: usize = 0;
    let mut p: usize = 0;
    while t.len() - p >= 2
        invariant
            s <= p <= t.len(),
            spans_within(t@, spans@),
            span_lines(t@, spans@) + lines_from(t@, s as int, p as int) == split_lines(t@),
        decreases t.len() - p,
    {
        if t[p] == '\r' && t[p + 1] == '\n' {
            proof {
                let old_lines = span_lines(t@, spans@);
                let line = t@.subrange(s as int, p as int);
                assert(span_lines(t@, spans@.push((s, p))) =~= old_lines.push(line));
                assert(old_lines + lines_from(t@, s as int, p as int) =~= old_lines.push(line)
                    + lines_from(t@, p + 2, p + 2));
            }
            spans.push((s, p));
            p = p + 2;
            s = p;
        } else {
            p = p + 1;
        }
    }
    proof {
        let old_lines = span_lines(t@, spans@);
        assert(span_lines(t@, spans@.push((s, t.len()))) =~= old_lines.push(
            t@.subrange(s as int, t.len() as int),
        ));
        assert(old_lines + lines_from(t@, s as int, p as int) =~= old_lines.push(
            t@.subrange(s as int, t.len() as int),
        ));
    }
    spans.push((s, t.len()));
    spans
}

/// A prefix of a digit sequence never denotes more than the whole.
proof fn lemma_digits_prefix(s: Seq<char>, j: int)
    requires
        0 <= j <= s.len(),
        forall|i: int| 0 <= i < s.len() ==> is_digit(#[trigger] s[i]),
    ensures
        0 <= digits_value(s.subrange(0, j)) <= digits_value(s),
    decreases s.len(),
{
    if s.len() > 0 {
        let init = s.drop_last();
        assert forall|i: int| 0 <= i < init.len() implies is_digit(#[trigger] init[i]) by {
            assert(init[i] == s[i]);
        }
        if j == s.len() {
            lemma_digits_prefix(init, init.len() as int);
            assert(s.subrange(0, j) =~= s);
            assert(init.subrange(0, init.len() as int) =~= init);
        } else {
            lemma_digits_prefix(init, j);
            assert(init.subrange(0, j) =~= s.subrange(0, j));
            lemma_digits_prefix(init, init.len() as int);
            assert(init.subrange(0, init.len() as int) =~= init);
        }
    }
}

/// Reads the signed count written in `t[a..b]`.
fn parse_count_exec(t: &Vec<char>, a: usize, b: usize) -> (r: Option<i64>)
    requires
        a <= b <= t.len(),
    ensures
        match r {
            Some(n) => parse_count(t@.subrange(a as int, b as int)) == Some(n as int),
            None => parse_count(t@.subrange(a as int, b as int)) is None,
        },
{
    let ghost s = t@.subrange(a as int, b as int);
    let mut i: usize = a;
    let mut neg = false;
    if i < b && (t[i] == '-' || t[i] == '+') {
        neg = t[i] == '-';
        i = i + 1;
    }
    let start = i;
    let ghost digits = t@.subrange(start as int, b as int);
    assert(digits =~= if s.len() > 0 && (s[0] == '-' || s[0] == '+') {
        s.drop_first()
    } else {
        s
    });
    if start == b {
        return None;
    }
    let limit: u64 = if neg { 0x8000_0000_0000_0000 } else { 0x7fff_ffff_ffff_ffff };
    let mut acc: u64 = 0;
    assert(t@.subrange(start as int, start as int) =~= Seq::<char>::empty());
    while i < b
        invariant
            start <= i <= b <= t.len(),
            digits == t@.subrange(start as int, b as int),
            s == t@.subrange(a as int, b as int),
            digits == (if s.len() > 0 && (s[0] == '-' || s[0] == '+') {
                s.drop_first()
            } else {
                s
            }),
            neg == (s.len() > 0 && s[0] == '-'),
            limit == (if neg { 0x8000_0000_0000_0000u64 } else { 0x7fff_ffff_ffff_ffffu64 }),
            acc as int == digits_value(t@.subrange(start as int, i as int)),
            acc <= limit,
            forall|j: int| start <= j < i ==> is_digit(#[trigger] t@[j]),
        decreases b - i,
    {
        let c = t[i];
        if !('0' <= c && c <= '9') {
            assert(digits[i - start] == c);
            return None;
        }
        assert(48 <= c as u32 <= 57);
        let d = (c as u32 - 48) as u64;
        let ghost next = t@.subrange(start as int, i + 1);
        assert(next.drop_last() =~= t@.subrange(start as int, i as int));
        if acc > (limit - d) / 10 {
            proof {
                assert(acc * 10 + d > limit) by (nonlinear_arith)
                    requires
                        acc > (limit - d) / 10,
                        d <= 9,
                        d <= limit,
                ;
                if forall|j: int| 0 <= j < digits.len() ==> is_digit(#[trigger] digits[j]) {
                    lemma_digits_prefix(digits, i + 1 - start);
                    assert(digits.subrange(0, i + 1 - start) =~= next);
                }
            }
            return None;
        }
        assert(acc * 10 + d <= limit) by (nonlinear_arith)
            requires
                acc <= (limit - d) / 10,
                d <= 9,
                d <= limit,
        ;
        acc = acc * 10 + d;
        i = i + 1;
    }
    assert(t@.subrange(start as int, b as int) =~= digits);
    assert forall|j: int| 0 <= j < digits.len() implies is_digit(#[trigger] digits[j]) by {
        assert(digits[j] == t@[start + j]);
    }
    if neg {
        if acc == 0x8000_0000_0000_0000 {
            Some(i64::MIN)
        } else {
            Some(-(acc as i64))
        }
    } else {
        Some(acc as i64)
    }
}


/// Decodes the value whose first line is line `k`; on success, also the
/// index of the first line after it.
fn parse(t: &Vec<char>, spans: &Vec<(usize, usize)>, k: usize) -> (r: Result<
    (Value, usize),
    ProtocolError,
>)
    requires
        spans_within(t@, spans@),
    ensures
        match r {
            Ok((v, next)) => parse_value(span_lines(t@, spans@), k as int) == Ok::<
                (Resp, int),
                ProtocolError,
            >((v@, next as int)) && k < next <= spans.len(),
            Err(e) => parse_value(span_lines(t@, spans@), k as int) == Err::<
                (Resp, int),
                ProtocolError,
            >(e),
        },
    decreases spans.len() - k,
{
    let ghost lines = span_lines(t@, spans@);
    if k >= spans.len() {
        return Err(ProtocolError::MissingLine);
    }
    let (a, b) = spans[k];
    assert(lines[k as int] == t@.subrange(a as int, b as int));
    if a == b {
        return Err(ProtocolError::UnknownPrefix);
    }
    let c = t[a];
    assert(lines[k as int][0] == c);
    let ghost rest = lines[k as int].drop_first();
    assert(rest =~= t@.subrange(a + 1, b as int));
    if c == '*' {
        match parse_count_exec(t, a + 1, b) {
            None => Err(ProtocolError::BadCount),
            Some(n) => {
                if n == -1 {
                    Ok((Value::Nil, k + 1))
                } else if n < 0 {
                    let items: Vec<Value> = Vec::new();
                    let r = Value::Array(items);
                    assert(r@ == Resp::Array(Seq::empty())) by {
                        assert(r@->Array_0 =~= Seq::<Resp>::empty());
                    }
                    Ok((r, k + 1))
                } else {
                    assert(parse_value(lines, k as int) == match parse_items(
                        lines,
                        k + 1,
                        n as nat,
                    ) {
                        Ok((items, last)) => Ok((Resp::Array(items), last)),
                        Err(e) => Err(e),
                    });
                    let mut items: Vec<Value> = Vec::new();
                    let ghost mut vs: Seq<Resp> = Seq::empty();
                    let mut next: usize = k + 1;
                    let mut left: i64 = n;
                    while left > 0
                        invariant
                            k < next <= spans.len(),
                            0 <= left <= n,
                            spans_within(t@, spans@),
                            lines == span_lines(t@, spans@),
                            parse_value(lines, k as int) == match parse_items(
                                lines,
                                k + 1,
                                n as nat,
                            ) {
                                Ok((items, last)) => Ok((Resp::Array(items), last)),
                                Err(e) => Err(e),
                            },
                            vs.len() == items.len(),
                            forall|i: int| 0 <= i < items.len() ==> vs[i] == #[trigger] items[i]@,
                            parse_items(lines, k + 1, n as nat) == match parse_items(
                                lines,
                                next as int,
                                left as nat,
                            ) {
                                Ok((more, last)) => Ok((vs + more, last)),
                                Err(e) => Err(e),
                            },
                        decreases left,
                    {
                        match parse(t, spans, next) {
                            Err(e) => {
                                assert(parse_items(lines, next as int, left as nat) == Err::<
                                    (Seq<Resp>, int),
                                    ProtocolError,
                                >(e));
                                return Err(e);
                            },
                            Ok((v, after)) => {
                                proof {
                                    let tail = parse_items(lines, after as int, (left - 1) as nat);
                                    if let Ok((more, last)) = tail {
                                        assert(vs + (seq![v@] + more) =~= vs.push(v@) + more);
                                    }
                                    vs = vs.push(v@);
                                }
                                items.push(v);
                                next = after;
                                left = left - 1;
                            },
                        }
                    }
                    proof {
                        assert(vs + Seq::<Resp>::empty() =~= vs);
                    }
                    let ghost old_items = items@;
                    let r = Value::Array(items);
                    assert(r@ == Resp::Array(vs)) by {
                        assert(r->Array_0@ == old_items);
                        assert(r@->Array_0.len() == vs.len());
                        assert forall|i: int| 0 <= i < vs.len() implies r@->Array_0[i] == vs[i] by {
                            assert(old_items[i]@ == vs[i]);
                        }
                        assert(r@->Array_0 =~= vs);
                    }
                    Ok((r, next))
                }
            },
        }
    } else if c == '$' {
        if k + 1 >= spans.len() {
            return Err(ProtocolError::MissingLine);
        }
        let (a2, b2) = spans[k + 1];
        assert(lines[k + 1] == t@.subrange(a2 as int, b2 as int));
        let text = text_of(slice_subrange(t.as_slice(), a2, b2));
        Ok((Value::BulkString(text), k + 2))
    } else if c == '+' {
        let text = text_of(slice_subrange(t.as_slice(), a + 1, b));
        Ok((Value::SimpleString(text), k + 1))
    } else if c == '-' {
        let text = text_of(slice_subrange(t.as_slice(), a + 1, b));
        Ok((Value::Error(text), k + 1))
    } else if c == ':' {
        let text = text_of(slice_subrange(t.as_slice(), a + 1, b));
        Ok((Value::Integer(text), k + 1))
    } else {
        Err(ProtocolError::UnknownPrefix)
    }
}

impl Value {
    /// Decodes the first RESP value in `buf`.
    pub fn parse(buf: &[u8]) -> (r: Result<Value, ProtocolError>)
        ensures
            match r {
                Ok(v) => decode(buf@) == Ok::<Resp, ProtocolError>(v@),
                Err(e) => decode(buf@) == Err::<Resp, ProtocolError>(e),
            },
    {
        match utf8_text(buf) {
            None => Err(ProtocolError::InvalidUtf8),
            Some(text) => {
                let t = chars_of(text);
                proof {
                    encode_utf8_decode_utf8(text@);
                }
                let spans = line_spans(&t);
                match parse(&t, &spans, 0) {
                    Ok((v, _)) => Ok(v),
                    Err(e) => Err(e),
                }
            },
        }
    }
}

} // verus!
