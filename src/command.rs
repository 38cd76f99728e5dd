use vstd::prelude::*;
use vstd::string::*;
use crate::codec::{decode, ProtocolError};
use crate::store::Store;
use crate::value::{encode, Resp, Value};

verus! {

/// The code of a character, with ASCII upper case letters taken to lower case.
pub open spec fn ascii_lower(c: char) -> u32 {
    if 'A' <= c <= 'Z' {
        (c as u32 + 32) as u32
    } else {
        c as u32
    }
}

/// Whether `word` spells the lower case `name`, ignoring ASCII case.
pub open spec fn names(word: Seq<char>, name: Seq<char>) -> bool {
    word.len() == name.len() && forall|i: int|
        0 <= i < word.len() ==> ascii_lower(#[trigger] word[i]) == name[i] as u32
}

/// The reply to a command, and the table after it.
pub open spec fn run(cmd: Resp, db: Map<Seq<char>, Seq<char>>) -> (Resp, Map<Seq<char>, Seq<char>>) {
    match cmd {
        Resp::Array(items) => if items.len() > 0 && items[0] is BulkString {
            let word = items[0]->BulkString_0;
            if names(word, "ping"@) {
                if items.len() == 1 {
                    (Resp::SimpleString("PONG"@), db)
                } else {
                    (Resp::Error("wrong number of arguments for ping"@), db)
                }
            } else if names(word, "echo"@) {
                if items.len() >= 2 {
                    (items[1], db)
                } else {
                    (Resp::Error("no args to echo"@), db)
                }
            } else if names(word, "get"@) {
                if items.len() >= 2 && items[1] is BulkString {
                    let key = items[1]->BulkString_0;
                    if db.contains_key(key) {
                        (Resp::BulkString(db[key]), db)
                    } else {
                        (Resp::Nil, db)
                    }
                } else {
                    (Resp::Error("no key for get"@), db)
                }
            } else if names(word, "set"@) {
                if items.len() >= 3 && items[1] is BulkString && items[2] is BulkString {
                    (
                        Resp::SimpleString("OK"@),
                        db.insert(items[1]->BulkString_0, items[2]->BulkString_0),
                    )
                } else {
                    (Resp::Error("no key and value for set"@), db)
                }
            } else {
                (Resp::Error("command not supported"@), db)
            }
        } else {
            (Resp::Error("command is not bulk string"@), db)
        },
        _ => (Resp::Error("RESP transmitted is not array"@), db),
    }
}

/// Whether `word` spells the lower case ASCII `name`, ignoring ASCII case.
fn is_named(word: &String, name: &str) -> (r: bool)
    ensures
        r == names(word@, name@),
{
    let w = word.as_str();
    let n = name.unicode_len();
    if w.unicode_len() != n {
        return false;
    }
    let mut i: usize = 0;
    while i < n
        invariant
            0 <= i <= n,
            n == name@.len(),
            w@ == word@,
            word@.len() == n,
            forall|j: int| 0 <= j < i ==> ascii_lower(#[trigger] word@[j]) == name@[j] as u32,
        decreases n - i,
    {
        let c = w.get_char(i);
        let code: u32 = if 'A' <= c && c <= 'Z' { c as u32 + 32 } else { c as u32 };
        if code != name.get_char(i) as u32 {
            return false;
        }
        i = i + 1;
    }
    true
}

fn error(message: &str) -> (r: Value)
    ensures
        r@ == Resp::Error(message@),
{
    Value::Error(String::from_str(message))
}

/// Runs one command against the store and returns its reply.
pub fn execute(cmd: &Value, store: &mut Store) -> (r: Value)
    requires
        old(store).wf(),
    ensures
        final(store).wf(),
        (r@, final(store)@) == run(cmd@, old(store)@),
{
    match cmd {
        Value::Array(items) => {
            assert(cmd@->Array_0.len() == items.len());
            if items.len() == 0 {
                return error("command is not bulk string");
            }
            assert(cmd@->Array_0[0] == items[0]@);
            match &items[0] {
                Value::BulkString(word) => {
                    if is_named(word, "ping") {
                        if items.len() == 1 {
                            Value::SimpleString(String::from_str("PONG"))
                        } else {
                            error("wrong number of arguments for ping")
                        }
                    } else if is_named(word, "echo") {
                        if items.len() >= 2 {
                            assert(cmd@->Array_0[1] == items[1]@);
                            items[1].duplicate()
                        } else {
                            error("no args to echo")
                        }
                    } else if is_named(word, "get") {
                        if items.len() >= 2 {
                            assert(cmd@->Array_0[1] == items[1]@);
                            match &items[1] {
                                Value::BulkString(key) => match store.get(key) {
                                    Some(v) => Value::BulkString(v),
                                    None => Value::Nil,
                                },
                                _ => error("no key for get"),
                            }
                        } else {
                            error("no key for get")
                        }
                    } else if is_named(word, "set") {
                        if items.len() >= 3 {
                            assert(cmd@->Array_0[1] == items[1]@);
                            assert(cmd@->Array_0[2] == items[2]@);
                            match (&items[1], &items[2]) {
                                (Value::BulkString(key), Value::BulkString(value)) => {
                                    store.set(key.clone(), value.clone());
                                    Value::SimpleString(String::from_str("OK"))
                                },
                                _ => error("no key and value for set"),
                            }
                        } else {
                            error("no key and value for set")
                        }
                    } else {
                        error("command not supported")
                    }
                },
                _ => error("command is not bulk string"),
            }
        },
        _ => error("RESP transmitted is not array"),
    }
}

/// Decodes one request, runs it against the store, and returns the encoded
/// reply; a request that does not decode leaves the store as it was.
pub fn handle_resp(buf: &[u8], store: &mut Store) -> (r: Result<String, ProtocolError>)
    requires
        old(store).wf(),
    ensures
        final(store).wf(),
        match decode(buf@) {
            Ok(cmd) => r is Ok && r->Ok_0@ == encode(run(cmd, old(store)@).0) && final(store)@ == run(
                cmd,
                old(store)@,
            ).1,
            Err(e) => r == Err::<String, ProtocolError>(e) && final(store)@ == old(store)@,
        },
{
    match Value::parse(buf) {
        Ok(request) => {
            let reply = execute(&request, store);
            Ok(reply.to_resp())
        },
        Err(e) => Err(e),
    }
}


/// The request `SET key value`.
pub open spec fn set_request(key: Seq<char>, value: Seq<char>) -> Resp {
    Resp::Array(seq![Resp::BulkString("SET"@), Resp::BulkString(key), Resp::BulkString(value)])
}

/// The request `GET key`.
pub open spec fn get_request(key: Seq<char>) -> Resp {
    Resp::Array(seq![Resp::BulkString("GET"@), Resp::BulkString(key)])
}

/// The table after running `cmds` in order.
pub open spec fn run_all(cmds: Seq<Resp>, db: Map<Seq<char>, Seq<char>>) -> Map<Seq<char>, Seq<char>>
    decreases cmds.len(),
{
    if cmds.len() == 0 {
        db
    } else {
        run(cmds.last(), run_all(cmds.drop_last(), db)).1
    }
}

proof fn lemma_set_request(db: Map<Seq<char>, Seq<char>>, k: Seq<char>, v: Seq<char>)
    ensures
        run(set_request(k, v), db) == (Resp::SimpleString("OK"@), db.insert(k, v)),
{
    reveal_strlit("SET");
    reveal_strlit("set");
    reveal_strlit("get");
    reveal_strlit("ping");
    reveal_strlit("echo");
    let w = "SET"@;
    assert(names(w, "set"@));
    assert(!names(w, "ping"@));
    assert(!names(w, "echo"@));
    assert(!names(w, "get"@)) by {
        assert(ascii_lower(w[0]) != "get"@[0] as u32);
    }
}

proof fn lemma_get_request(db: Map<Seq<char>, Seq<char>>, k: Seq<char>)
    ensures
        run(get_request(k), db) == (if db.contains_key(k) {
            Resp::BulkString(db[k])
        } else {
            Resp::Nil
        }, db),
{
    reveal_strlit("GET");
    reveal_strlit("get");
    reveal_strlit("ping");
    reveal_strlit("echo");
    let w = "GET"@;
    assert(names(w, "get"@));
    assert(!names(w, "ping"@));
    assert(!names(w, "echo"@));
}

/// Setting a key twice and then reading it gives the second value.
pub proof fn law_set_set_get(db: Map<Seq<char>, Seq<char>>, k: Seq<char>, s1: Seq<char>, s2: Seq<char>)
    ensures
        run(
            get_request(k),
            run(set_request(k, s2), run(set_request(k, s1), db).1).1,
        ).0 == Resp::BulkString(s2),
{
    lemma_set_request(db, k, s1);
    lemma_set_request(db.insert(k, s1), k, s2);
    lemma_get_request(db.insert(k, s1).insert(k, s2), k);
}

/// Reading a key that is not in the table gives `Nil` and changes nothing.
pub proof fn law_get_missing(db: Map<Seq<char>, Seq<char>>, k: Seq<char>)
    requires
        !db.contains_key(k),
    ensures
        run(get_request(k), db) == (Resp::Nil, db),
{
    lemma_get_request(db, k);
}

/// The command name is matched without regard to ASCII case: every spelling
/// of `ping` is answered with `PONG`.
pub proof fn law_ping_any_case(db: Map<Seq<char>, Seq<char>>, word: Seq<char>)
    requires
        names(word, "ping"@),
    ensures
        run(Resp::Array(seq![Resp::BulkString(word)]), db) == (Resp::SimpleString("PONG"@), db),
{
}

/// A request that is not an array is answered with an error, and the table
/// stays as it was.
pub proof fn law_not_array(cmd: Resp, db: Map<Seq<char>, Seq<char>>)
    requires
        !(cmd is Array),
    ensures
        run(cmd, db).0 is Error,
        run(cmd, db).1 == db,
{
}

/// After `SET`s of distinct keys, in any order, a `GET` of each key gives
/// the value written for it: no write is lost and no key disturbs another.
pub proof fn law_distinct_sets(
    db: Map<Seq<char>, Seq<char>>,
    keys: Seq<Seq<char>>,
    values: Seq<Seq<char>>,
    i: int,
)
    requires
        keys.len() == values.len(),
        forall|a: int, b: int| 0 <= a < b < keys.len() ==> keys[a] != keys[b],
        0 <= i < keys.len(),
    ensures
        run(
            get_request(keys[i]),
            run_all(Seq::new(keys.len(), |j: int| set_request(keys[j], values[j])), db),
        ).0 == Resp::BulkString(values[i]),
    decreases keys.len(),
{
    let sets = Seq::new(keys.len(), |j: int| set_request(keys[j], values[j]));
    let n = keys.len() - 1;
    let init_keys = keys.drop_last();
    let init_values = values.drop_last();
    let init_sets = Seq::new(init_keys.len(), |j: int| set_request(init_keys[j], init_values[j]));
    assert(sets.drop_last() =~= init_sets);
    let before = run_all(init_sets, db);
    lemma_set_request(before, keys[n], values[n]);
    assert(run_all(sets, db) == before.insert(keys[n], values[n]));
    lemma_get_request(before.insert(keys[n], values[n]), keys[i]);
    if i < n {
        law_distinct_sets(db, init_keys, init_values, i);
        lemma_get_request(before, keys[i]);
        assert(keys[i] != keys[n]);
    }
}

} // verus!
