//! The commands: how tokens make a command, and what a command does to the
//! store.

use crate::error::{DispatchError, Error, ParseError};
use crate::store::Store;
use crate::types::{lemma_list_view, reply_view, views, RedisType, Value};
use std::collections::VecDeque;
use vstd::prelude::*;
use vstd::utf8::is_ascii_chars;

verus! {

/// The lower-case letter of an upper-case letter of ASCII; any other
/// character is left as it is.
pub open spec fn lower(c: char) -> char {
    if 65 <= c as u32 <= 90 {
        ((c as u32) + 32) as u8 as char
    } else {
        c
    }
}

/// `s` with its upper-case letters of ASCII in lower case.
pub open spec fn lowercase(s: Seq<char>) -> Seq<char> {
    s.map_values(|c: char| lower(c))
}

/// A character is a scalar value: it is not below zero, and fits 32 bits.
proof fn lemma_char_range(c: char)
    ensures
        '\0' <= c,
        c as int == c as u32,
{
}

/// Whether `token` is `word`, whatever the case of its letters.
fn names(token: &str, word: &str) -> (b: bool)
    requires
        is_ascii_chars(word@),
    ensures
        b == (lowercase(token@) == word@),
{
    if !token.is_ascii() {
        proof {
            // A character beyond ASCII stays as it is, and `word` has none.
            let i = choose|i: int|
                0 <= i < token@.len() && !('\0' <= #[trigger] token@[i] <= '\u{7f}');
            if lowercase(token@) == word@ {
                assert(lowercase(token@)[i] == lower(token@[i]));
                lemma_char_range(token@[i]);
                assert('\0' <= word@[i] <= '\u{7f}');
            }
        }
        return false;
    }
    let t = token.as_bytes();
    let w = word.as_bytes();
    proof {
        vstd::utf8::is_ascii_chars_encode_utf8(token@);
        vstd::utf8::is_ascii_chars_encode_utf8(word@);
    }
    if t.len() != w.len() {
        return false;
    }
    let mut i: usize = 0;
    while i < t.len()
        invariant
            token@.len() == word@.len(),
            t@.len() == token@.len(),
            w@.len() == word@.len(),
            forall|j: int| 0 <= j < token@.len() ==> #[trigger] token@[j] as u8 == t@[j],
            forall|j: int| 0 <= j < word@.len() ==> #[trigger] word@[j] as u8 == w@[j],
            is_ascii_chars(token@),
            is_ascii_chars(word@),
            i <= token@.len(),
            forall|j: int| 0 <= j < i ==> lower(token@[j]) == word@[j],
        decreases token@.len() - i,
    {
        let low = if 65 <= t[i] && t[i] <= 90 {
            t[i] + 32
        } else {
            t[i]
        };
        proof {
            let c = token@[i as int];
            assert('\0' <= c <= '\u{7f}');
            assert('\0' <= word@[i as int] <= '\u{7f}');
            assert(lower(c) as u8 == low);
        }
        if low != w[i] {
            proof {
                if lowercase(token@) == word@ {
                    assert(lowercase(token@)[i as int] == word@[i as int]);
                }
            }
            return false;
        }
        i = i + 1;
    }
    assert(lowercase(token@) =~= word@);
    true
}

/// What a request asks for.
#[derive(Debug)]
pub enum Command {
    /// Asks for nothing: a client sends it to see what the server offers.
    NoOp,
    /// Maps the key to the value.
    SetValue(String, String),
    /// Asks for the value of the key.
    Get(String),
    /// Removes the keys.
    Del(Vec<String>),
    /// Maps the key to the value, and asks for its value of before.
    GetSet(String, String),
    /// Puts the values in front of the list at the key, one by one.
    LPush(String, Vec<String>),
    /// Puts the values behind the list at the key.
    RPush(String, Vec<String>),
}

/// The mathematical content of a [`Command`].
pub enum Operation {
    NoOp,
    SetValue(Seq<char>, Seq<char>),
    Get(Seq<char>),
    Del(Seq<Seq<char>>),
    GetSet(Seq<char>, Seq<char>),
    LPush(Seq<char>, Seq<Seq<char>>),
    RPush(Seq<char>, Seq<Seq<char>>),
}

impl View for Command {
    type V = Operation;

    open spec fn view(&self) -> Operation {
        match self {
            Command::NoOp => Operation::NoOp,
            Command::SetValue(key, value) => Operation::SetValue(key@, value@),
            Command::Get(key) => Operation::Get(key@),
            Command::Del(keys) => Operation::Del(keys.deep_view()),
            Command::GetSet(key, value) => Operation::GetSet(key@, value@),
            Command::LPush(key, values) => Operation::LPush(key@, values.deep_view()),
            Command::RPush(key, values) => Operation::RPush(key@, values.deep_view()),
        }
    }
}

/// The command that `tokens` make. The first token names it, in letters of
/// either case; the key follows, then the value or values. `set` and
/// `getset` take a key and a value, `get` a key, `del` any number of keys,
/// `lpush` and `rpush` a key and any number of values, `command` nothing.
/// Tokens beyond those that a command takes are ignored.
pub open spec fn parse_command(tokens: Seq<Seq<char>>) -> Result<Operation, ParseError> {
    if tokens.len() == 0 {
        Err(ParseError::NoCommand)
    } else {
        let name = lowercase(tokens[0]);
        let rest = tokens.skip(1);
        if name == "set"@ {
            if rest.len() < 1 {
                Err(ParseError::MissingKey)
            } else if rest.len() < 2 {
                Err(ParseError::MissingValue)
            } else {
                Ok(Operation::SetValue(rest[0], rest[1]))
            }
        } else if name == "get"@ {
            if rest.len() < 1 {
                Err(ParseError::MissingKey)
            } else {
                Ok(Operation::Get(rest[0]))
            }
        } else if name == "del"@ {
            Ok(Operation::Del(rest))
        } else if name == "getset"@ {
            if rest.len() < 1 {
                Err(ParseError::MissingKey)
            } else if rest.len() < 2 {
                Err(ParseError::MissingValue)
            } else {
                Ok(Operation::GetSet(rest[0], rest[1]))
            }
        } else if name == "lpush"@ {
            if rest.len() < 1 {
                Err(ParseError::MissingKey)
            } else {
                Ok(Operation::LPush(rest[0], rest.skip(1)))
            }
        } else if name == "rpush"@ {
            if rest.len() < 1 {
                Err(ParseError::MissingKey)
            } else {
                Ok(Operation::RPush(rest[0], rest.skip(1)))
            }
        } else if name == "command"@ {
            Ok(Operation::NoOp)
        } else {
            Err(ParseError::UnknownCommand)
        }
    }
}

/// Copies of the tokens from `from` on.
fn copies(tokens: &[String], from: usize) -> (out: Vec<String>)
    requires
        from <= tokens@.len(),
    ensures
        out.deep_view() == tokens.deep_view().skip(from as int),
{
    let mut out: Vec<String> = Vec::new();
    let mut i: usize = from;
    while i < tokens.len()
        invariant
            from <= i <= tokens@.len(),
            out@.len() == i - from,
            forall|j: int| 0 <= j < out@.len() ==> out@[j]@ == tokens@[from + j]@,
        decreases tokens@.len() - i,
    {
        out.push(tokens[i].clone());
        i = i + 1;
    }
    assert(out.deep_view() =~= tokens.deep_view().skip(from as int));
    out
}

impl<'a> TryFrom<&'a [String]> for Command {
    type Error = ParseError;

    /// The command that `tokens` make.
    fn try_from(tokens: &'a [String]) -> (command: Result<Command, ParseError>)
        ensures
            match command {
                Ok(c) => parse_command(tokens.deep_view()) == Ok::<_, ParseError>(c@),
                Err(e) => parse_command(tokens.deep_view()) == Err::<Operation, _>(e),
            },
    {
        if tokens.len() == 0 {
            return Err(ParseError::NoCommand);
        }
        proof {
            reveal_strlit("set");
            reveal_strlit("get");
            reveal_strlit("del");
            reveal_strlit("getset");
            reveal_strlit("lpush");
            reveal_strlit("rpush");
            reveal_strlit("command");
        }
        let ghost rest = tokens.deep_view().skip(1);
        let name = tokens[0].as_str();
        let n = tokens.len();
        if names(name, "set") {
            if n < 2 {
                Err(ParseError::MissingKey)
            } else if n < 3 {
                Err(ParseError::MissingValue)
            } else {
                Ok(Command::SetValue(tokens[1].clone(), tokens[2].clone()))
            }
        } else if names(name, "get") {
            if n < 2 {
                Err(ParseError::MissingKey)
            } else {
                Ok(Command::Get(tokens[1].clone()))
            }
        } else if names(name, "del") {
            Ok(Command::Del(copies(tokens, 1)))
        } else if names(name, "getset") {
            if n < 2 {
                Err(ParseError::MissingKey)
            } else if n < 3 {
                Err(ParseError::MissingValue)
            } else {
                Ok(Command::GetSet(tokens[1].clone(), tokens[2].clone()))
            }
        } else if names(name, "lpush") {
            if n < 2 {
                Err(ParseError::MissingKey)
            } else {
                let values = copies(tokens, 2);
                assert(values.deep_view() =~= rest.skip(1));
                Ok(Command::LPush(tokens[1].clone(), values))
            }
        } else if names(name, "rpush") {
            if n < 2 {
                Err(ParseError::MissingKey)
            } else {
                let values = copies(tokens, 2);
                assert(values.deep_view() =~= rest.skip(1));
                Ok(Command::RPush(tokens[1].clone(), values))
            }
        } else if names(name, "command") {
            Ok(Command::NoOp)
        } else {
            Err(ParseError::UnknownCommand)
        }
    }
}

impl<'a> vstd::std_specs::convert::TryFromSpecImpl<&'a [String]> for Command {
    /// A command owns copies of its tokens, which no specification function
    /// can make: `try_from` states in its own contract what it returns.
    open spec fn obeys_try_from_spec() -> bool {
        false
    }

    open spec fn try_from_spec(tokens: &'a [String]) -> Result<Command, ParseError> {
        Err(ParseError::NoCommand)
    }
}

/// What a command comes to: the reply, and the store after it.
pub struct Outcome {
    pub reply: Result<Option<Value>, DispatchError>,
    pub store: Map<Seq<char>, Value>,
}

/// A number of items as a reply integer: the number itself, or the largest
/// reply integer where the number is beyond it.
pub open spec fn count(n: nat) -> int {
    if n <= i64::MAX {
        n as int
    } else {
        i64::MAX as int
    }
}

/// The string values of `texts`.
pub open spec fn strings(texts: Seq<Seq<char>>) -> Seq<Value> {
    texts.map_values(|text: Seq<char>| Value::String(text))
}

/// What `store` maps `key` to, and nil where it maps it to nothing.
pub open spec fn lookup(store: Map<Seq<char>, Value>, key: Seq<char>) -> Value {
    if store.contains_key(key) {
        store[key]
    } else {
        Value::Nil
    }
}

/// What pushing comes to, where `items` is the list that `key` shall hold.
pub open spec fn push_outcome(
    store: Map<Seq<char>, Value>,
    key: Seq<char>,
    items: Seq<Value>,
) -> Outcome {
    Outcome {
        reply: Ok(Some(Value::Integer(count(items.len())))),
        store: store.insert(key, Value::List(items)),
    }
}

impl Operation {
    /// What this operation comes to on `store`.
    ///
    /// - `SetValue` maps the key to the string and replies nil.
    /// - `Get` replies the key's value, or nil.
    /// - `GetSet` maps the key to the string and replies the key's value
    ///   of before, or nil.
    /// - `Del` removes the keys and replies how many of them the store
    ///   held; a key named twice counts once.
    /// - `LPush` puts the values, one by one, in front of the key's list,
    ///   so that the last value comes first; `RPush` puts them behind it, in
    ///   their order. Both reply the length of the list. A key without a
    ///   value gets an empty list first, also where there are no values to
    ///   push. A key whose value is not a list gives an error, and the
    ///   store stays as it is.
    /// - `NoOp` changes nothing and replies nothing.
    pub open spec fn apply(self, store: Map<Seq<char>, Value>) -> Outcome {
        match self {
            Operation::NoOp => Outcome { reply: Ok(None), store },
            Operation::SetValue(key, value) => Outcome {
                reply: Ok(Some(Value::Nil)),
                store: store.insert(key, Value::String(value)),
            },
            Operation::Get(key) => Outcome { reply: Ok(Some(lookup(store, key))), store },
            Operation::GetSet(key, value) => Outcome {
                reply: Ok(Some(lookup(store, key))),
                store: store.insert(key, Value::String(value)),
            },
            Operation::Del(keys) => Outcome {
                reply: Ok(
                    Some(Value::Integer(count(keys.to_set().intersect(store.dom()).len()))),
                ),
                store: store.remove_keys(keys.to_set()),
            },
            Operation::LPush(key, values) => if !store.contains_key(key) {
                push_outcome(store, key, strings(values).reverse())
            } else {
                match store[key] {
                    Value::List(items) => push_outcome(
                        store,
                        key,
                        strings(values).reverse() + items,
                    ),
                    _ => Outcome { reply: Err(DispatchError::WrongType), store },
                }
            },
            Operation::RPush(key, values) => if !store.contains_key(key) {
                push_outcome(store, key, strings(values))
            } else {
                match store[key] {
                    Value::List(items) => push_outcome(store, key, items + strings(values)),
                    _ => Outcome { reply: Err(DispatchError::WrongType), store },
                }
            },
        }
    }
}

/// The reply integer for a number of items.
fn count_of(n: usize) -> (value: RedisType)
    ensures
        value@ == Value::Integer(count(n as nat)),
{
    if n as u64 > 9223372036854775807u64 {
        RedisType::Integer(i64::MAX)
    } else {
        RedisType::Integer(n as i64)
    }
}

/// Removes `keys` from `store`, and says how many of them it held.
fn delete(store: &mut Store, keys: &Vec<String>) -> (removed: usize)
    ensures
        final(store)@ == old(store)@.remove_keys(keys.deep_view().to_set()),
        removed == keys.deep_view().to_set().intersect(old(store)@.dom()).len(),
{
    let ghost all = keys.deep_view();
    let ghost before = store@;
    let mut removed: usize = 0;
    let mut i: usize = 0;
    assert(all.take(0) =~= Seq::<Seq<char>>::empty());
    assert(all.take(0).to_set() =~= Set::<Seq<char>>::empty());
    assert(before.remove_keys(Set::<Seq<char>>::empty()) =~= before);
    assert(Set::<Seq<char>>::empty().intersect(before.dom()) =~= Set::<Seq<char>>::empty());
    while i < keys.len()
        invariant
            i <= keys@.len(),
            all == keys.deep_view(),
            removed <= i,
            store@ == before.remove_keys(all.take(i as int).to_set()),
            removed == all.take(i as int).to_set().intersect(before.dom()).len(),
        decreases keys@.len() - i,
    {
        let ghost seen = all.take(i as int).to_set();
        let ghost key = keys@[i as int]@;
        proof {
            assert(all.take(i + 1) =~= all.take(i as int).push(key));
            all.take(i as int).lemma_push_to_set_commute(key);
            assert(all.take(i + 1).to_set() =~= seen.insert(key));
            vstd::seq_lib::seq_to_set_is_finite(all.take(i as int));
            assert(before.remove_keys(seen).remove(key) =~= before.remove_keys(seen.insert(key)));
            if seen.contains(key) || !before.dom().contains(key) {
                assert(seen.insert(key).intersect(before.dom()) =~= seen.intersect(before.dom()));
            } else {
                assert(seen.insert(key).intersect(before.dom()) =~= seen.intersect(
                    before.dom(),
                ).insert(key));
            }
        }
        match store.remove(keys[i].as_str()) {
            Some(_) => {
                removed = removed + 1;
            },
            None => {},
        }
        i = i + 1;
    }
    assert(all.take(i as int) =~= all);
    removed
}

/// Pushes `values` onto the list at `key`: in front of it, one by one, or
/// behind it.
fn push(store: &mut Store, key: String, values: Vec<String>, front: bool) -> (reply: Result<
    Option<RedisType>,
    DispatchError,
>)
    ensures
        ({
            let operation = if front {
                Operation::LPush(key@, values.deep_view())
            } else {
                Operation::RPush(key@, values.deep_view())
            };
            let outcome = operation.apply(old(store)@);
            final(store)@ == outcome.store && reply_view(reply) == outcome.reply
        }),
{
    let ghost before = store@;
    let ghost texts = values.deep_view();
    match store.get(key.as_str()) {
        Some(value) => {
            if !value.is_list() {
                return Err(DispatchError::WrongType);
            }
        },
        None => {},
    }
    let mut items = match store.remove(key.as_str()) {
        Some(RedisType::List(items)) => {
            proof {
                lemma_list_view(items);
            }
            items
        },
        _ => VecDeque::new(),
    };
    let ghost first = views(items@);
    assert(first =~= if before.contains_key(key@) {
        before[key@]->List_0
    } else {
        Seq::empty()
    });
    let mut i: usize = 0;
    assert(strings(texts.take(0)).reverse() + first =~= first);
    assert(first + strings(texts.take(0)) =~= first);
    while i < values.len()
        invariant
            i <= values@.len(),
            texts == values.deep_view(),
            views(items@) == if front {
                strings(texts.take(i as int)).reverse() + first
            } else {
                first + strings(texts.take(i as int))
            },
        decreases values@.len() - i,
    {
        let ghost held = views(items@);
        let value = RedisType::String(values[i].clone());
        proof {
            let taken = strings(texts.take(i as int));
            let more = strings(texts.take(i + 1));
            assert(more =~= taken.push(value@));
            assert(more.reverse() =~= seq![value@] + taken.reverse());
        }
        if front {
            items.push_front(value);
            assert(views(items@) =~= seq![value@] + held);
            assert(views(items@) =~= strings(texts.take(i + 1)).reverse() + first);
        } else {
            items.push_back(value);
            assert(views(items@) =~= held.push(value@));
            assert(views(items@) =~= first + strings(texts.take(i + 1)));
        }
        i = i + 1;
    }
    assert(texts.take(i as int) =~= texts);
    let reply = count_of(items.len());
    proof {
        lemma_list_view(items);
        assert(before.remove(key@).insert(key@, Value::List(views(items@))) =~= before.insert(
            key@,
            Value::List(views(items@)),
        ));
    }
    store.insert(key, RedisType::List(items));
    Ok(Some(reply))
}

impl Command {
    /// Carries this command out on `store`.
    pub fn execute(self, store: &mut Store) -> (reply: Result<Option<RedisType>, DispatchError>)
        ensures
            final(store)@ == self@.apply(old(store)@).store,
            reply_view(reply) == self@.apply(old(store)@).reply,
    {
        match self {
            Command::NoOp => Ok(None),
            Command::SetValue(key, value) => {
                store.insert(key, RedisType::String(value));
                Ok(Some(RedisType::Nil))
            },
            Command::Get(key) => match store.get(key.as_str()) {
                Some(value) => Ok(Some(value.clone())),
                None => Ok(Some(RedisType::Nil)),
            },
            Command::GetSet(key, value) => match store.insert(key, RedisType::String(value)) {
                Some(previous) => Ok(Some(previous)),
                None => Ok(Some(RedisType::Nil)),
            },
            Command::Del(keys) => {
                let removed = delete(store, &keys);
                Ok(Some(count_of(removed)))
            },
            Command::LPush(key, values) => push(store, key, values, true),
            Command::RPush(key, values) => push(store, key, values, false),
        }
    }
}

/// What the request of `tokens` comes to on `store`: the reply or the
/// error, and the store after it. Tokens that make no command leave the
/// store as it is.
pub open spec fn dispatched(tokens: Seq<Seq<char>>, store: Map<Seq<char>, Value>) -> (
    Result<Option<Value>, Error>,
    Map<Seq<char>, Value>,
) {
    match parse_command(tokens) {
        Ok(operation) => {
            let outcome = operation.apply(store);
            match outcome.reply {
                Ok(reply) => (Ok(reply), outcome.store),
                Err(e) => (Err(Error::Dispatch(e)), outcome.store),
            }
        },
        Err(e) => (Err(Error::Parse(e)), store),
    }
}

/// Reads `command` as a command and carries it out on `dictionary`.
pub fn dispatch(command: Vec<String>, dictionary: &mut Store) -> (reply: Result<
    Option<RedisType>,
    Error,
>)
    ensures
        reply_view(reply) == dispatched(command.deep_view(), old(dictionary)@).0,
        final(dictionary)@ == dispatched(command.deep_view(), old(dictionary)@).1,
{
    match Command::try_from(command.as_slice()) {
        Ok(parsed) => match parsed.execute(dictionary) {
            Ok(value) => Ok(value),
            Err(e) => Err(Error::Dispatch(e)),
        },
        Err(e) => Err(Error::Parse(e)),
    }
}

/// After a key is set to a string, getting the key replies that string.
pub proof fn lemma_get_after_set(store: Map<Seq<char>, Value>, key: Seq<char>, value: Seq<char>)
    ensures
        ({
            let set = Operation::SetValue(key, value).apply(store);
            let get = Operation::Get(key).apply(set.store);
            &&& set.reply == Ok::<_, DispatchError>(Some(Value::Nil))
            &&& get.reply == Ok::<_, DispatchError>(Some(Value::String(value)))
            &&& get.store == set.store
        }),
{
}

/// After a key is set to a string, `GetSet` replies that string and leaves
/// the key mapped to its own.
pub proof fn lemma_getset_after_set(
    store: Map<Seq<char>, Value>,
    key: Seq<char>,
    first: Seq<char>,
    second: Seq<char>,
)
    ensures
        ({
            let set = Operation::SetValue(key, first).apply(store);
            let getset = Operation::GetSet(key, second).apply(set.store);
            &&& getset.reply == Ok::<_, DispatchError>(Some(Value::String(first)))
            &&& getset.store.contains_key(key)
            &&& getset.store[key] == Value::String(second)
        }),
{
}

/// Deleting a key that the store does not hold replies zero and changes
/// nothing.
pub proof fn lemma_del_absent(store: Map<Seq<char>, Value>, key: Seq<char>)
    requires
        !store.contains_key(key),
    ensures
        Operation::Del(seq![key]).apply(store).reply == Ok::<_, DispatchError>(
            Some(Value::Integer(0)),
        ),
        Operation::Del(seq![key]).apply(store).store == store,
{
    let keys = seq![key];
    assert(keys.to_set().intersect(store.dom()) =~= Set::<Seq<char>>::empty()) by {
        assert forall|k: Seq<char>| keys.to_set().contains(k) implies k == key by {
            let i = choose|i: int| 0 <= i < keys.len() && keys[i] == k;
        }
    }
    assert(store.remove_keys(keys.to_set()) =~= store) by {
        assert forall|k: Seq<char>| keys.to_set().contains(k) implies k == key by {
            let i = choose|i: int| 0 <= i < keys.len() && keys[i] == k;
        }
    }
}

/// Of keys that are all different, those that satisfy `pred` are all
/// different too, and are the members that satisfy it.
proof fn lemma_filter_distinct(keys: Seq<Seq<char>>, pred: spec_fn(Seq<char>) -> bool)
    requires
        keys.no_duplicates(),
    ensures
        keys.filter(pred).no_duplicates(),
        forall|k: Seq<char>| keys.filter(pred).contains(k) <==> keys.contains(k) && pred(k),
    decreases keys.len(),
{
    reveal(Seq::filter);
    if keys.len() > 0 {
        let rest = keys.drop_last();
        let last = keys.last();
        lemma_filter_distinct(rest, pred);
        let kept = rest.filter(pred);
        assert forall|k: Seq<char>| keys.contains(k) <==> rest.contains(k) || k == last by {
            if keys.contains(k) {
                let i = choose|i: int| 0 <= i < keys.len() && keys[i] == k;
                if i < rest.len() {
                    assert(rest[i] == k);
                }
            }
            if rest.contains(k) {
                let i = choose|i: int| 0 <= i < rest.len() && rest[i] == k;
                assert(keys[i] == k);
            }
            assert(keys[keys.len() - 1] == last);
        }
        if rest.contains(last) {
            let i = choose|i: int| 0 <= i < rest.len() && rest[i] == last;
            assert(keys[i] == keys[keys.len() - 1]);
        }
        if pred(last) {
            let all = kept.push(last);
            assert forall|k: Seq<char>| all.contains(k) <==> kept.contains(k) || k == last by {
                if all.contains(k) {
                    let i = choose|i: int| 0 <= i < all.len() && all[i] == k;
                    if i < kept.len() {
                        assert(kept[i] == k);
                    }
                }
                if kept.contains(k) {
                    let i = choose|i: int| 0 <= i < kept.len() && kept[i] == k;
                    assert(all[i] == k);
                }
                assert(all[all.len() - 1] == last);
            }
            assert forall|i: int, j: int| 0 <= i < all.len() && 0 <= j < all.len() && i
                != j implies all[i] != all[j] by {
                if i < kept.len() {
                    assert(kept.contains(kept[i]));
                }
                if j < kept.len() {
                    assert(kept.contains(kept[j]));
                }
            }
        }
    } else {
        assert(forall|k: Seq<char>| !keys.contains(k));
    }
}

/// Deleting keys that are all different replies how many of them the store
/// held, and none of them is held afterwards.
pub proof fn lemma_del_counts_present(store: Map<Seq<char>, Value>, keys: Seq<Seq<char>>)
    requires
        keys.no_duplicates(),
    ensures
        Operation::Del(keys).apply(store).reply == Ok::<_, DispatchError>(
            Some(
                Value::Integer(
                    count(keys.filter(|key: Seq<char>| store.contains_key(key)).len()),
                ),
            ),
        ),
        forall|i: int|
            0 <= i < keys.len() ==> !Operation::Del(keys).apply(store).store.contains_key(
                #[trigger] keys[i],
            ),
{
    let held = |key: Seq<char>| store.contains_key(key);
    let present = keys.filter(held);
    lemma_filter_distinct(keys, held);
    present.unique_seq_to_set();
    assert(present.to_set() =~= keys.to_set().intersect(store.dom()));
    assert forall|i: int| 0 <= i < keys.len() implies !Operation::Del(keys).apply(
        store,
    ).store.contains_key(#[trigger] keys[i]) by {
        assert(keys.to_set().contains(keys[i]));
    }
}

/// A key that is named once more in one `Del` makes no difference.
pub proof fn lemma_del_repeated(
    store: Map<Seq<char>, Value>,
    keys: Seq<Seq<char>>,
    key: Seq<char>,
)
    requires
        keys.contains(key),
    ensures
        Operation::Del(keys.push(key)).apply(store) == Operation::Del(keys).apply(store),
{
    keys.lemma_push_to_set_commute(key);
    assert(keys.push(key).to_set() =~= keys.to_set());
}

/// Pushing onto a key that the store does not hold leaves the key mapped
/// to the values, last first for `LPush` and in their order for `RPush`,
/// and replies how many they are.
pub proof fn lemma_push_absent(
    store: Map<Seq<char>, Value>,
    key: Seq<char>,
    values: Seq<Seq<char>>,
)
    requires
        !store.contains_key(key),
    ensures
        ({
            let left = Operation::LPush(key, values).apply(store);
            let right = Operation::RPush(key, values).apply(store);
            &&& left.reply == Ok::<_, DispatchError>(Some(Value::Integer(count(values.len()))))
            &&& right.reply == left.reply
            &&& left.store.contains_key(key)
            &&& left.store[key] matches Value::List(items)
            &&& items.len() == values.len()
            &&& forall|i: int|
                0 <= i < values.len() ==> items[i] == Value::String(values[values.len() - 1 - i])
            &&& right.store.contains_key(key)
            &&& right.store[key] matches Value::List(items)
            &&& items.len() == values.len()
            &&& forall|i: int| 0 <= i < values.len() ==> items[i] == Value::String(values[i])
        }),
{
}

/// Pushing onto a key whose value is not a list is an error, and leaves
/// the store as it is.
pub proof fn lemma_push_wrong_type(
    store: Map<Seq<char>, Value>,
    key: Seq<char>,
    values: Seq<Seq<char>>,
)
    requires
        store.contains_key(key),
        !(store[key] is List),
    ensures
        Operation::LPush(key, values).apply(store) == (Outcome {
            reply: Err(DispatchError::WrongType),
            store,
        }),
        Operation::RPush(key, values).apply(store) == (Outcome {
            reply: Err(DispatchError::WrongType),
            store,
        }),
{
}

/// Two requests that set one key take effect one after the other, in
/// either order: the key is then mapped to one of the two strings.
pub proof fn lemma_sets_in_either_order(
    store: Map<Seq<char>, Value>,
    key: Seq<char>,
    first: Seq<char>,
    second: Seq<char>,
)
    ensures
        ({
            let one = Operation::SetValue(key, first);
            let other = Operation::SetValue(key, second);
            let forth = Operation::Get(key).apply(other.apply(one.apply(store).store).store);
            let back = Operation::Get(key).apply(one.apply(other.apply(store).store).store);
            &&& forth.reply == Ok::<_, DispatchError>(Some(Value::String(second)))
            &&& back.reply == Ok::<_, DispatchError>(Some(Value::String(first)))
        }),
{
}

} // verus!
