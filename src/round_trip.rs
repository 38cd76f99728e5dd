use vstd::prelude::*;
use vstd::utf8::*;
use crate::codec::{all_digits, digit_value, ProtocolError, decode, digits_value, is_digit, lines_from, parse_count, parse_items, parse_value, split_lines};
use crate::value::{crlf, decimal, digit_char, encode, encode_all, Resp};

verus! {

/// Whether no terminator occurs in `s`.
pub open spec fn no_crlf(s: Seq<char>) -> bool {
    forall|i: int| 0 <= i < s.len() - 1 ==> !(#[trigger] s[i] == '\r' && s[i + 1] == '\n')
}

/// Whether encoding `r` and decoding the result gives `r` back: no text in
/// it holds a terminator, and every array's length fits a signed 64-bit count.
pub open spec fn encodable(r: Resp) -> bool
    decreases r,
{
    match r {
        Resp::Array(items) => items.len() <= 0x7fff_ffff_ffff_ffff && forall|i: int|
            0 <= i < items.len() ==> encodable(#[trigger] items[i]),
        Resp::BulkString(s) => no_crlf(s),
        Resp::Error(s) => no_crlf(s),
        Resp::Integer(s) => no_crlf(s),
        Resp::SimpleString(s) => no_crlf(s),
        Resp::Nil => true,
    }
}

/// The lines of a value's wire form, without their terminators.
pub open spec fn resp_lines(r: Resp) -> Seq<Seq<char>>
    decreases r,
{
    match r {
        Resp::Array(items) => seq![seq!['*'] + decimal(items.len())] + items_lines(items),
        Resp::BulkString(s) => seq![seq!['$'] + decimal(encode_utf8(s).len()), s],
        Resp::Error(s) => seq![seq!['-'] + s],
        Resp::Integer(s) => seq![seq![':'] + s],
        Resp::SimpleString(s) => seq![seq!['+'] + s],
        Resp::Nil => seq![seq!['*', '-', '1']],
    }
}

pub open spec fn items_lines(items: Seq<Resp>) -> Seq<Seq<char>>
    decreases items,
{
    if items.len() == 0 {
        Seq::empty()
    } else {
        resp_lines(items[0]) + items_lines(items.drop_first())
    }
}

/// Lines, each followed by a terminator.
pub open spec fn join(ls: Seq<Seq<char>>) -> Seq<char>
    decreases ls.len(),
{
    if ls.len() == 0 {
        Seq::empty()
    } else {
        ls[0] + crlf() + join(ls.drop_first())
    }
}

pub open spec fn lines_clean(ls: Seq<Seq<char>>) -> bool {
    forall|i: int| 0 <= i < ls.len() ==> no_crlf(#[trigger] ls[i])
}

proof fn lemma_join_concat(a: Seq<Seq<char>>, b: Seq<Seq<char>>)
    ensures
        join(a + b) == join(a) + join(b),
    decreases a.len(),
{
    if a.len() == 0 {
        assert(a + b =~= b);
    } else {
        lemma_join_concat(a.drop_first(), b);
        assert((a + b).drop_first() =~= a.drop_first() + b);
        assert((a + b)[0] == a[0]);
        assert(join(a + b) =~= join(a) + join(b));
    }
}

proof fn lemma_encode_all_front(items: Seq<Resp>)
    requires
        items.len() > 0,
    ensures
        encode_all(items) == encode(items[0]) + encode_all(items.drop_first()),
    decreases items.len(),
{
    if items.len() == 1 {
        assert(items.drop_last().len() == 0);
        assert(items.drop_first().len() == 0);
        assert(items.last() == items[0]);
        assert(encode_all(items.drop_last()) == Seq::<char>::empty());
        assert(encode_all(items.drop_first()) == Seq::<char>::empty());
        assert(encode_all(items) =~= encode(items[0]) + encode_all(items.drop_first()));
    } else {
        let init = items.drop_last();
        lemma_encode_all_front(init);
        assert(init.drop_first() =~= items.drop_first().drop_last());
        assert(items.drop_first().last() == items.last());
        assert(init[0] == items[0]);
        assert(encode_all(items) =~= encode(items[0]) + encode_all(items.drop_first()));
    }
}

proof fn lemma_encode_lines(r: Resp)
    ensures
        encode(r) == join(resp_lines(r)),
    decreases r,
{
    reveal_with_fuel(join, 3);
    match r {
        Resp::Array(items) => {
            lemma_encode_all_lines(items);
            let head = seq![seq!['*'] + decimal(items.len())];
            lemma_join_concat(head, items_lines(items));
            assert(head.drop_first() =~= Seq::<Seq<char>>::empty());
            assert(encode(r) =~= join(resp_lines(r)));
        },
        Resp::BulkString(s) => {
            let ls = resp_lines(r);
            assert(ls.drop_first() =~= seq![s]);
            assert(ls.drop_first().drop_first() =~= Seq::<Seq<char>>::empty());
            assert(encode(r) =~= join(resp_lines(r)));
        },
        _ => {
            assert(resp_lines(r).drop_first() =~= Seq::<Seq<char>>::empty());
            assert(encode(r) =~= join(resp_lines(r)));
        },
    }
}

proof fn lemma_encode_all_lines(items: Seq<Resp>)
    ensures
        encode_all(items) == join(items_lines(items)),
    decreases items,
{
    if items.len() > 0 {
        lemma_encode_all_front(items);
        lemma_encode_lines(items[0]);
        lemma_encode_all_lines(items.drop_first());
        lemma_join_concat(resp_lines(items[0]), items_lines(items.drop_first()));
    }
}

proof fn lemma_decimal(n: nat)
    ensures
        all_digits(decimal(n)),
        digits_value(decimal(n)) == n,
        decimal(n).len() > 0,
    decreases n,
{
    let d = n % 10;
    assert(digit_value(digit_char(d)) == d);
    if n < 10 {
        assert(decimal(n).drop_last() =~= Seq::<char>::empty());
        assert(digits_value(Seq::<char>::empty()) == 0);
    } else {
        lemma_decimal(n / 10);
        assert(decimal(n).drop_last() =~= decimal(n / 10));
        assert(decimal(n).last() == digit_char(n % 10));
        assert(digits_value(decimal(n)) == digits_value(decimal(n / 10)) * 10 + digit_value(
            digit_char(n % 10),
        ));
        assert((n / 10) * 10 + n % 10 == n);
        let d = decimal(n);
        assert(d.drop_last() =~= decimal(n / 10));
        assert forall|i: int| 0 <= i < d.len() implies is_digit(#[trigger] d[i]) by {
            if i < d.len() - 1 {
                assert(d[i] == decimal(n / 10)[i]);
            }
        }
    }
}

proof fn lemma_clean(r: Resp)
    requires
        encodable(r),
    ensures
        lines_clean(resp_lines(r)),
        resp_lines(r).len() > 0,
    decreases r,
{
    match r {
        Resp::Array(items) => {
            lemma_items_clean(items);
            let head = seq!['*'] + decimal(items.len());
            lemma_decimal(items.len());
            assert(no_crlf(head)) by {
                assert forall|i: int| 0 <= i < head.len() - 1 implies !(#[trigger] head[i] == '\r'
                    && head[i + 1] == '\n') by {
                    assert(head[i + 1] == decimal(items.len())[i]);
                }
            }
            let ls = resp_lines(r);
            assert forall|i: int| 0 <= i < ls.len() implies no_crlf(#[trigger] ls[i]) by {
                if i > 0 {
                    assert(ls[i] == items_lines(items)[i - 1]);
                }
            }
        },
        Resp::BulkString(s) => {
            let head = seq!['$'] + decimal(encode_utf8(s).len());
            lemma_decimal(encode_utf8(s).len());
            assert(no_crlf(head)) by {
                assert forall|i: int| 0 <= i < head.len() - 1 implies !(#[trigger] head[i] == '\r'
                    && head[i + 1] == '\n') by {
                    assert(head[i + 1] == decimal(encode_utf8(s).len())[i]);
                }
            }
        },
        Resp::Error(s) => {
            let l = seq!['-'] + s;
            assert forall|i: int| 0 <= i < l.len() - 1 implies !(#[trigger] l[i] == '\r' && l[i
                + 1] == '\n') by {
                if i > 0 {
                    assert(l[i] == s[i - 1] && l[i + 1] == s[i]);
                }
            }
        },
        Resp::Integer(s) => {
            let l = seq![':'] + s;
            assert forall|i: int| 0 <= i < l.len() - 1 implies !(#[trigger] l[i] == '\r' && l[i
                + 1] == '\n') by {
                if i > 0 {
                    assert(l[i] == s[i - 1] && l[i + 1] == s[i]);
                }
            }
        },
        Resp::SimpleString(s) => {
            let l = seq!['+'] + s;
            assert forall|i: int| 0 <= i < l.len() - 1 implies !(#[trigger] l[i] == '\r' && l[i
                + 1] == '\n') by {
                if i > 0 {
                    assert(l[i] == s[i - 1] && l[i + 1] == s[i]);
                }
            }
        },
        Resp::Nil => {
            let l = seq!['*', '-', '1'];
            assert(no_crlf(l));
        },
    }
}

proof fn lemma_items_clean(items: Seq<Resp>)
    requires
        forall|i: int| 0 <= i < items.len() ==> encodable(#[trigger] items[i]),
    ensures
        lines_clean(items_lines(items)),
    decreases items,
{
    if items.len() > 0 {
        lemma_clean(items[0]);
        let rest = items.drop_first();
        assert forall|i: int| 0 <= i < rest.len() implies encodable(#[trigger] rest[i]) by {
            assert(rest[i] == items[i + 1]);
        }
        lemma_items_clean(rest);
        let a = resp_lines(items[0]);
        let b = items_lines(rest);
        assert forall|i: int| 0 <= i < (a + b).len() implies no_crlf(#[trigger] (a + b)[i]) by {
            if i >= a.len() {
                assert((a + b)[i] == b[i - a.len()]);
            }
        }
    }
}


proof fn lemma_scan(t: Seq<char>, s: int, p: int, e: int)
    requires
        0 <= s <= p <= e,
        e + 1 < t.len(),
        t[e] == '\r' && t[e + 1] == '\n',
        forall|q: int| p <= q < e ==> !(#[trigger] t[q] == '\r' && t[q + 1] == '\n'),
    ensures
        lines_from(t, s, p) == seq![t.subrange(s, e)] + lines_from(t, e + 2, e + 2),
    decreases e - p,
{
    if p < e {
        lemma_scan(t, s, p + 1, e);
    }
}

proof fn lemma_split_line(t: Seq<char>, s: int, line: Seq<char>)
    requires
        0 <= s,
        s + line.len() + 2 <= t.len(),
        t.subrange(s, s + line.len() + 2) == line + crlf(),
        no_crlf(line),
    ensures
        lines_from(t, s, s) == seq![line] + lines_from(
            t,
            s + line.len() + 2,
            s + line.len() + 2,
        ),
{
    let e = s + line.len();
    let w = t.subrange(s, s + line.len() + 2);
    assert(t[e] == w[line.len() as int] && t[e + 1] == w[line.len() + 1int]);
    assert forall|q: int| s <= q < e implies !(#[trigger] t[q] == '\r' && t[q + 1] == '\n') by {
        assert(t[q] == w[q - s] && t[q + 1] == w[q - s + 1]);
        assert(w[q - s] == line[q - s]);
        if q + 1 < e {
            assert(w[q - s + 1] == line[q - s + 1]);
        }
    }
    lemma_scan(t, s, s, e);
    assert(t.subrange(s, e) =~= line) by {
        assert forall|q: int| 0 <= q < line.len() implies t.subrange(s, e)[q] == line[q] by {
            assert(t[s + q] == w[q]);
        }
    }
}

proof fn lemma_split_join(t: Seq<char>, s: int, ls: Seq<Seq<char>>)
    requires
        lines_clean(ls),
        0 <= s,
        s + join(ls).len() <= t.len(),
        t.subrange(s, s + join(ls).len()) == join(ls),
    ensures
        lines_from(t, s, s) == ls + lines_from(t, s + join(ls).len(), s + join(ls).len()),
    decreases ls.len(),
{
    if ls.len() == 0 {
        assert(ls + lines_from(t, s, s) =~= lines_from(t, s, s));
    } else {
        let first = ls[0];
        let rest = ls.drop_first();
        let j = join(ls);
        let next = s + first.len() + 2;
        assert(j == first + crlf() + join(rest));
        assert(t.subrange(s, next) =~= first + crlf()) by {
            assert forall|q: int| 0 <= q < first.len() + 2 implies t.subrange(s, next)[q] == (first
                + crlf())[q] by {
                assert(t[s + q] == j[q]);
            }
        }
        lemma_split_line(t, s, first);
        assert forall|i: int| 0 <= i < rest.len() implies no_crlf(#[trigger] rest[i]) by {
            assert(rest[i] == ls[i + 1]);
        }
        assert(t.subrange(next, next + join(rest).len()) =~= join(rest)) by {
            assert forall|q: int| 0 <= q < join(rest).len() implies t.subrange(
                next,
                next + join(rest).len(),
            )[q] == join(rest)[q] by {
                assert(t[next + q] == j[first.len() + 2 + q]);
            }
        }
        lemma_split_join(t, next, rest);
        assert(seq![first] + rest =~= ls);
        assert(seq![first] + (rest + lines_from(t, s + j.len(), s + j.len())) =~= ls + lines_from(
            t,
            s + j.len(),
            s + j.len(),
        ));
    }
}

proof fn lemma_count_decimal(n: nat)
    requires
        n <= 0x7fff_ffff_ffff_ffff,
    ensures
        parse_count(decimal(n)) == Some(n as int),
{
    lemma_decimal(n);
    assert(is_digit(decimal(n)[0]));
}

proof fn lemma_parse(ls: Seq<Seq<char>>, k: int, r: Resp)
    requires
        encodable(r),
        0 <= k,
        k + resp_lines(r).len() <= ls.len(),
        ls.subrange(k, k + resp_lines(r).len()) == resp_lines(r),
    ensures
        parse_value(ls, k) == Ok::<(Resp, int), ProtocolError>((r, k + resp_lines(r).len())),
    decreases r,
{
    let rl = resp_lines(r);
    assert(ls[k] == rl[0]);
    let l = ls[k];
    match r {
        Resp::Array(items) => {
            lemma_count_decimal(items.len());
            assert(l.drop_first() =~= decimal(items.len()));
            let il = items_lines(items);
            assert(ls.subrange(k + 1, k + 1 + il.len()) =~= il) by {
                assert forall|q: int| 0 <= q < il.len() implies ls.subrange(k + 1, k + 1 + il.len())[q]
                    == il[q] by {
                    assert(ls[k + 1 + q] == rl[1 + q]);
                }
            }
            lemma_parse_items(ls, k + 1, items);
            assert(l[0] == '*');
            assert(rl.len() == 1 + il.len());
            assert(parse_count(l.drop_first()) == Some(items.len() as int));
            assert(parse_items(ls, k + 1, items.len()) == Ok::<(Seq<Resp>, int), ProtocolError>(
                (items, k + 1 + il.len()),
            ));
            assert(l.len() > 0);
            assert(0 <= k < ls.len());
        },
        Resp::BulkString(s) => {
            assert(ls[k + 1] == rl[1]);
            assert(l[0] == '$');
        },
        Resp::Error(s) => {
            assert(l.drop_first() =~= s);
            assert(l[0] == '-');
        },
        Resp::Integer(s) => {
            assert(l.drop_first() =~= s);
            assert(l[0] == ':');
        },
        Resp::SimpleString(s) => {
            assert(l.drop_first() =~= s);
            assert(l[0] == '+');
        },
        Resp::Nil => {
            let c = l.drop_first();
            assert(c.drop_first() =~= seq!['1']);
            let one = seq!['1'];
            assert(one.drop_last() =~= Seq::<char>::empty());
            assert(one.last() == '1');
            assert(('1' as u32) == 49);
            assert(digits_value(Seq::<char>::empty()) == 0);
            assert(digits_value(one) == digits_value(one.drop_last()) * 10 + digit_value(one.last()));
            assert(digits_value(one) == 1);
            assert(l[0] == '*');
        },
    }
}

proof fn lemma_parse_items(ls: Seq<Seq<char>>, k: int, items: Seq<Resp>)
    requires
        forall|i: int| 0 <= i < items.len() ==> encodable(#[trigger] items[i]),
        0 <= k,
        k + items_lines(items).len() <= ls.len(),
        ls.subrange(k, k + items_lines(items).len()) == items_lines(items),
    ensures
        parse_items(ls, k, items.len()) == Ok::<(Seq<Resp>, int), ProtocolError>(
            (items, k + items_lines(items).len()),
        ),
    decreases items,
{
    if items.len() == 0 {
        assert(items =~= Seq::<Resp>::empty());
    } else {
        let first = items[0];
        let rest = items.drop_first();
        let fl = resp_lines(first);
        let rl = items_lines(rest);
        let il = items_lines(items);
        assert(il == fl + rl);
        lemma_clean(first);
        assert(ls.subrange(k, k + fl.len()) =~= fl) by {
            assert forall|q: int| 0 <= q < fl.len() implies ls.subrange(k, k + fl.len())[q] == fl[q] by {
                assert(ls[k + q] == il[q]);
            }
        }
        lemma_parse(ls, k, first);
        let next = k + fl.len();
        assert forall|i: int| 0 <= i < rest.len() implies encodable(#[trigger] rest[i]) by {
            assert(rest[i] == items[i + 1]);
        }
        assert(ls.subrange(next, next + rl.len()) =~= rl) by {
            assert forall|q: int| 0 <= q < rl.len() implies ls.subrange(next, next + rl.len())[q]
                == rl[q] by {
                assert(ls[next + q] == il[fl.len() + q]);
            }
        }
        lemma_parse_items(ls, next, rest);
        assert(seq![first] + rest =~= items);
    }
}

/// Decoding the UTF-8 bytes of a value's wire form gives the value back,
/// for every value that holds no terminator in its texts.
pub proof fn law_round_trip(v: Resp)
    requires
        encodable(v),
    ensures
        decode(encode_utf8(encode(v))) == Ok::<Resp, ProtocolError>(v),
{
    let t = encode(v);
    encode_utf8_valid_utf8(t);
    encode_utf8_decode_utf8(t);
    lemma_encode_lines(v);
    lemma_clean(v);
    let ls = resp_lines(v);
    assert(t.subrange(0, t.len() as int) =~= t);
    lemma_split_join(t, 0, ls);
    let lines = split_lines(t);
    assert(lines.subrange(0, ls.len() as int) =~= ls);
    lemma_parse(lines, 0, v);
}

} // verus!
