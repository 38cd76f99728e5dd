use vstd::prelude::*;
use vstd::string::*;
use vstd::utf8::*;

verus! {

broadcast use vstd::std_specs::vec::axiom_vec_index_decreases;

/// One RESP unit.
#[derive(Debug)]
pub enum Value {
    Array(Vec<Value>),
    BulkString(String),
    Error(String),
    Integer(String),
    SimpleString(String),
    Nil,
}

/// The mathematical model of a `Value`: texts as character sequences.
pub enum Resp {
    Array(Seq<Resp>),
    BulkString(Seq<char>),
    Error(Seq<char>),
    Integer(Seq<char>),
    SimpleString(Seq<char>),
    Nil,
}

impl View for Value {
    type V = Resp;

    open spec fn view(&self) -> Resp
        decreases self,
    {
        match self {
            Value::Array(items) => Resp::Array(
                Seq::new(items@.len(), |i: int|
                    if 0 <= i < items.len() { items[i]@ } else { Resp::Nil },
                ),
            ),
            Value::BulkString(s) => Resp::BulkString(s@),
            Value::Error(s) => Resp::Error(s@),
            Value::Integer(s) => Resp::Integer(s@),
            Value::SimpleString(s) => Resp::SimpleString(s@),
            Value::Nil => Resp::Nil,
        }
    }
}


/// The two-character line terminator.
pub open spec fn crlf() -> Seq<char> {
    seq!['\r', '\n']
}

/// The ASCII character of a decimal digit.
pub open spec fn digit_char(d: nat) -> char {
    ((d + 48) as u8) as char
}

/// The decimal representation of `n`, most significant digit first.
pub open spec fn decimal(n: nat) -> Seq<char>
    decreases n,
{
    if n < 10 {
        seq![digit_char(n)]
    } else {
        decimal(n / 10).push(digit_char(n % 10))
    }
}

/// The wire form of a value.
pub open spec fn encode(r: Resp) -> Seq<char>
    decreases r,
{
    match r {
        Resp::Array(items) => seq!['*'] + decimal(items.len()) + crlf() + encode_all(items),
        Resp::BulkString(s) => seq!['$'] + decimal(encode_utf8(s).len()) + crlf() + s + crlf(),
        Resp::Error(s) => seq!['-'] + s + crlf(),
        Resp::Integer(s) => seq![':'] + s + crlf(),
        Resp::SimpleString(s) => seq!['+'] + s + crlf(),
        Resp::Nil => seq!['*', '-', '1'] + crlf(),
    }
}

/// The wire forms of a sequence of values, one after the other.
pub open spec fn encode_all(items: Seq<Resp>) -> Seq<char>
    decreases items,
{
    if items.len() == 0 {
        Seq::empty()
    } else {
        encode_all(items.drop_last()) + encode(items.last())
    }
}

/// Appends the decimal representation of `n`.
fn push_decimal(out: &mut String, n: usize)
    ensures
        final(out)@ == old(out)@ + decimal(n as nat),
    decreases n,
{
    if n >= 10 {
        push_decimal(out, n / 10);
    }
    let d = n % 10;
    let digit: &str = if d == 0 {
        "0"
    } else if d == 1 {
        "1"
    } else if d == 2 {
        "2"
    } else if d == 3 {
        "3"
    } else if d == 4 {
        "4"
    } else if d == 5 {
        "5"
    } else if d == 6 {
        "6"
    } else if d == 7 {
        "7"
    } else if d == 8 {
        "8"
    } else {
        "9"
    };
    proof {
        reveal_strlit("0");
        reveal_strlit("1");
        reveal_strlit("2");
        reveal_strlit("3");
        reveal_strlit("4");
        reveal_strlit("5");
        reveal_strlit("6");
        reveal_strlit("7");
        reveal_strlit("8");
        reveal_strlit("9");
        assert(digit@ =~= seq![digit_char(d as nat)]);
    }
    out.append(digit);
}

impl Value {
    /// A copy of this value, element by element.
    pub fn duplicate(&self) -> (r: Value)
        ensures
            r@ == self@,
        decreases self,
    {
        match self {
            Value::Array(items) => {
                let mut copies: Vec<Value> = Vec::new();
                let mut i: usize = 0;
                while i < items.len()
                    invariant
                        0 <= i <= items.len(),
                        self is Array,
                        self->Array_0 == *items,
                        copies.len() == i,
                        forall|j: int| 0 <= j < i ==> (#[trigger] copies[j])@ == items[j]@,
                    decreases items.len() - i,
                {
                    proof {
                        assert(decreases_to!(*self => self->Array_0));
                        assert(decreases_to!(self->Array_0 => self->Array_0[i as int]));
                    }
                    copies.push(items[i].duplicate());
                    i = i + 1;
                }
                let r = Value::Array(copies);
                assert(r@->Array_0 =~= self@->Array_0);
                r
            },
            Value::BulkString(s) => Value::BulkString(s.clone()),
            Value::Error(s) => Value::Error(s.clone()),
            Value::Integer(s) => Value::Integer(s.clone()),
            Value::SimpleString(s) => Value::SimpleString(s.clone()),
            Value::Nil => Value::Nil,
        }
    }

    /// The wire form of this value.
    pub fn to_resp(&self) -> (r: String)
        ensures
            r@ == encode(self@),
        decreases self,
    {
        proof {
            reveal_strlit("*");
            reveal_strlit("$");
            reveal_strlit("-");
            reveal_strlit(":");
            reveal_strlit("+");
            reveal_strlit("\r\n");
            reveal_strlit("*-1\r\n");
        }
        match self {
            Value::Array(items) => {
                let ghost rs = self@->Array_0;
                let mut out = String::from_str("*");
                push_decimal(&mut out, items.len());
                out.append("\r\n");
                let ghost head = out@;
                assert(head =~= seq!['*'] + decimal(rs.len()) + crlf());
                let mut i: usize = 0;
                while i < items.len()
                    invariant
                        0 <= i <= items.len(),
                        self is Array,
                        self->Array_0 == *items,
                        self@ == Resp::Array(rs),
                        rs.len() == items.len(),
                        forall|j: int| 0 <= j < items.len() ==> rs[j] == items[j]@,
                        out@ == head + encode_all(rs.subrange(0, i as int)),
                    decreases items.len() - i,
                {
                    proof {
                        assert(decreases_to!(*self => self->Array_0));
                        assert(decreases_to!(self->Array_0 => self->Array_0[i as int]));

                    }
                    let part = items[i].to_resp();
                    out.append(part.as_str());
                    proof {
                        assert(rs.subrange(0, i + 1).drop_last() =~= rs.subrange(0, i as int));
                    }
                    i = i + 1;
                }
                proof {
                    assert(rs.subrange(0, items.len() as int) =~= rs);
                    assert(out@ =~= encode(self@));
                }
                out
            },
            Value::BulkString(s) => {
                let text = s.as_str();
                let n = text.as_bytes().len();
                assert(n == encode_utf8(s@).len());
                let mut out = String::from_str("$");
                push_decimal(&mut out, n);
                out.append("\r\n");
                out.append(s.as_str());
                out.append("\r\n");
                assert(out@ =~= encode(self@));
                out
            },
            Value::Error(s) => {
                let out = String::from_str("-").concat(s.as_str()).concat("\r\n");
                assert(out@ =~= encode(self@));
                out
            },
            Value::Integer(s) => {
                let out = String::from_str(":").concat(s.as_str()).concat("\r\n");
                assert(out@ =~= encode(self@));
                out
            },
            Value::SimpleString(s) => {
                let out = String::from_str("+").concat(s.as_str()).concat("\r\n");
                assert(out@ =~= encode(self@));
                out
            },
            Value::Nil => {
                let out = String::from_str("*-1\r\n");
                assert(out@ =~= encode(self@));
                out
            },
        }
    }
}

} // verus!
