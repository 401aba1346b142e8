use redis_lite::commands::{dispatch, Command};
use redis_lite::error::{DispatchError, Error, ParseError};
use redis_lite::protocol::decode;
use redis_lite::reply::reply;
use redis_lite::store::Store;
use redis_lite::types::RedisType;
use std::collections::VecDeque;

fn tokens(words: &[&str]) -> Vec<String> {
    words.iter().map(|w| w.to_string()).collect()
}

fn text(s: &str) -> RedisType {
    RedisType::String(s.to_string())
}

fn list(items: &[&str]) -> RedisType {
    RedisType::List(items.iter().map(|s| text(s)).collect::<VecDeque<_>>())
}

fn run(store: &mut Store, words: &[&str]) -> Result<Option<RedisType>, Error> {
    dispatch(tokens(words), store)
}

fn parse(words: &[&str]) -> Result<Command, ParseError> {
    Command::try_from(tokens(words).as_slice())
}

#[test]
fn tokens_make_commands() {
    assert!(matches!(parse(&["command"]), Ok(Command::NoOp)));
    assert!(matches!(
        parse(&["set", "k", "v"]),
        Ok(Command::SetValue(k, v)) if k == "k" && v == "v"
    ));
    assert!(matches!(parse(&["get", "k"]), Ok(Command::Get(k)) if k == "k"));
    assert!(matches!(
        parse(&["del", "a", "b"]),
        Ok(Command::Del(keys)) if keys == ["a", "b"]
    ));
    assert!(matches!(parse(&["del"]), Ok(Command::Del(keys)) if keys.is_empty()));
    assert!(matches!(
        parse(&["getset", "k", "v"]),
        Ok(Command::GetSet(k, v)) if k == "k" && v == "v"
    ));
    assert!(matches!(
        parse(&["lpush", "k", "a", "b"]),
        Ok(Command::LPush(k, vs)) if k == "k" && vs == ["a", "b"]
    ));
    assert!(matches!(
        parse(&["rpush", "k", "a", "b"]),
        Ok(Command::RPush(k, vs)) if k == "k" && vs == ["a", "b"]
    ));
    assert!(matches!(
        parse(&["rpush", "k"]),
        Ok(Command::RPush(k, vs)) if k == "k" && vs.is_empty()
    ));
}

#[test]
fn command_names_are_read_in_either_case() {
    assert!(matches!(parse(&["SET", "k", "v"]), Ok(Command::SetValue(_, _))));
    assert!(matches!(parse(&["Set", "k", "v"]), Ok(Command::SetValue(_, _))));
    assert!(matches!(parse(&["gEtSeT", "k", "v"]), Ok(Command::GetSet(_, _))));
    assert!(matches!(parse(&["LPUSH", "k"]), Ok(Command::LPush(_, _))));
    assert!(matches!(parse(&["COMMAND"]), Ok(Command::NoOp)));
}

#[test]
fn keys_and_values_keep_their_case() {
    assert!(matches!(
        parse(&["SET", "Key", "VALUE"]),
        Ok(Command::SetValue(k, v)) if k == "Key" && v == "VALUE"
    ));
}

#[test]
fn tokens_beyond_the_arity_are_ignored() {
    assert!(matches!(parse(&["get", "k", "extra"]), Ok(Command::Get(k)) if k == "k"));
    assert!(matches!(
        parse(&["set", "k", "v", "extra"]),
        Ok(Command::SetValue(k, v)) if k == "k" && v == "v"
    ));
    assert!(matches!(parse(&["command", "docs"]), Ok(Command::NoOp)));
}

#[test]
fn no_token_is_no_command() {
    assert!(matches!(parse(&[]), Err(ParseError::NoCommand)));
    assert_eq!(ParseError::NoCommand.to_string(), "No command found");
}

#[test]
fn missing_arguments_are_syntax_errors() {
    for name in ["set", "get", "getset", "lpush", "rpush"] {
        assert!(matches!(parse(&[name]), Err(ParseError::MissingKey)));
    }
    for name in ["set", "getset"] {
        assert!(matches!(parse(&[name, "k"]), Err(ParseError::MissingValue)));
    }
    assert_eq!(ParseError::MissingKey.to_string(), "Syntax error: key is missing");
    assert_eq!(
        ParseError::MissingValue.to_string(),
        "Syntax error: value is missing"
    );
}

#[test]
fn unknown_names_are_errors() {
    for name in ["", "ping", "sett", "se", "s\u{e9}t", "set ", "\u{212a}"] {
        assert!(matches!(parse(&[name, "k", "v"]), Err(ParseError::UnknownCommand)));
    }
    assert_eq!(ParseError::UnknownCommand.to_string(), "Unknown command");
}

#[test]
fn parse_errors_leave_the_store_as_it_is() {
    let mut store = Store::new();
    run(&mut store, &["SET", "k", "v"]).unwrap();
    assert_eq!(run(&mut store, &[]), Err(Error::Parse(ParseError::NoCommand)));
    assert_eq!(
        run(&mut store, &["SET", "k"]),
        Err(Error::Parse(ParseError::MissingValue))
    );
    assert_eq!(
        run(&mut store, &["FLUSHALL"]),
        Err(Error::Parse(ParseError::UnknownCommand))
    );
    assert_eq!(store.keys(), ["k"]);
    assert_eq!(store.get("k"), Some(&text("v")));
}

#[test]
fn set_then_get_returns_the_value() {
    let mut store = Store::new();
    assert_eq!(run(&mut store, &["SET", "k", "v"]), Ok(Some(RedisType::Nil)));
    assert_eq!(run(&mut store, &["GET", "k"]), Ok(Some(text("v"))));
    assert_eq!(run(&mut store, &["SET", "k", "w"]), Ok(Some(RedisType::Nil)));
    assert_eq!(run(&mut store, &["GET", "k"]), Ok(Some(text("w"))));
}

#[test]
fn get_of_an_absent_key_returns_nil() {
    let mut store = Store::new();
    assert_eq!(run(&mut store, &["GET", "k"]), Ok(Some(RedisType::Nil)));
    assert_eq!(store.len(), 0);
}

#[test]
fn set_overwrites_a_list() {
    let mut store = Store::new();
    run(&mut store, &["RPUSH", "k", "a"]).unwrap();
    assert_eq!(run(&mut store, &["SET", "k", "v"]), Ok(Some(RedisType::Nil)));
    assert_eq!(store.get("k"), Some(&text("v")));
}

#[test]
fn getset_returns_the_value_of_before() {
    let mut store = Store::new();
    assert_eq!(run(&mut store, &["GETSET", "k", "v0"]), Ok(Some(RedisType::Nil)));
    assert_eq!(store.get("k"), Some(&text("v0")));
    run(&mut store, &["SET", "k", "v1"]).unwrap();
    assert_eq!(run(&mut store, &["GETSET", "k", "v2"]), Ok(Some(text("v1"))));
    assert_eq!(store.get("k"), Some(&text("v2")));
    assert_eq!(run(&mut store, &["GET", "k"]), Ok(Some(text("v2"))));
}

#[test]
fn getset_returns_a_list_of_before() {
    let mut store = Store::new();
    run(&mut store, &["RPUSH", "k", "a", "b"]).unwrap();
    assert_eq!(run(&mut store, &["GETSET", "k", "v"]), Ok(Some(list(&["a", "b"]))));
    assert_eq!(store.get("k"), Some(&text("v")));
}

#[test]
fn del_counts_the_keys_that_it_removes() {
    let mut store = Store::new();
    assert_eq!(run(&mut store, &["DEL", "absent"]), Ok(Some(RedisType::Integer(0))));
    assert_eq!(run(&mut store, &["DEL"]), Ok(Some(RedisType::Integer(0))));
    for key in ["a", "b", "c", "d"] {
        run(&mut store, &["SET", key, "v"]).unwrap();
    }
    assert_eq!(
        run(&mut store, &["DEL", "a", "x", "c", "y", "z"]),
        Ok(Some(RedisType::Integer(2)))
    );
    assert_eq!(store.keys(), ["b", "d"]);
    assert_eq!(run(&mut store, &["DEL", "a"]), Ok(Some(RedisType::Integer(0))));
}

#[test]
fn del_counts_a_repeated_key_once() {
    let mut store = Store::new();
    run(&mut store, &["SET", "a", "v"]).unwrap();
    run(&mut store, &["SET", "b", "v"]).unwrap();
    assert_eq!(
        run(&mut store, &["DEL", "a", "a", "b", "a", "b"]),
        Ok(Some(RedisType::Integer(2)))
    );
    assert_eq!(store.len(), 0);
}

#[test]
fn lpush_puts_each_value_in_front() {
    let mut store = Store::new();
    assert_eq!(
        run(&mut store, &["LPUSH", "k", "a", "b", "c"]),
        Ok(Some(RedisType::Integer(3)))
    );
    assert_eq!(store.get("k"), Some(&list(&["c", "b", "a"])));
    assert_eq!(
        run(&mut store, &["LPUSH", "k", "d", "e"]),
        Ok(Some(RedisType::Integer(5)))
    );
    assert_eq!(store.get("k"), Some(&list(&["e", "d", "c", "b", "a"])));
    assert_eq!(
        run(&mut store, &["GET", "k"]),
        Ok(Some(list(&["e", "d", "c", "b", "a"])))
    );
}

#[test]
fn rpush_puts_each_value_behind() {
    let mut store = Store::new();
    assert_eq!(
        run(&mut store, &["RPUSH", "k", "a", "b", "c"]),
        Ok(Some(RedisType::Integer(3)))
    );
    assert_eq!(store.get("k"), Some(&list(&["a", "b", "c"])));
    assert_eq!(
        run(&mut store, &["RPUSH", "k", "d", "e"]),
        Ok(Some(RedisType::Integer(5)))
    );
    assert_eq!(store.get("k"), Some(&list(&["a", "b", "c", "d", "e"])));
    assert_eq!(
        run(&mut store, &["LPUSH", "k", "z"]),
        Ok(Some(RedisType::Integer(6)))
    );
    assert_eq!(store.get("k"), Some(&list(&["z", "a", "b", "c", "d", "e"])));
}

#[test]
fn push_without_values_makes_an_empty_list() {
    let mut store = Store::new();
    assert_eq!(run(&mut store, &["LPUSH", "l"]), Ok(Some(RedisType::Integer(0))));
    assert_eq!(store.get("l"), Some(&list(&[])));
    assert_eq!(run(&mut store, &["RPUSH", "r"]), Ok(Some(RedisType::Integer(0))));
    assert_eq!(store.get("r"), Some(&list(&[])));
    run(&mut store, &["RPUSH", "r", "a"]).unwrap();
    assert_eq!(run(&mut store, &["RPUSH", "r"]), Ok(Some(RedisType::Integer(1))));
    assert_eq!(store.get("r"), Some(&list(&["a"])));
}

#[test]
fn push_onto_a_string_is_a_type_error() {
    let mut store = Store::new();
    run(&mut store, &["SET", "k", "v"]).unwrap();
    assert_eq!(
        run(&mut store, &["LPUSH", "k", "a"]),
        Err(Error::Dispatch(DispatchError::WrongType))
    );
    assert_eq!(
        run(&mut store, &["RPUSH", "k", "a", "b"]),
        Err(Error::Dispatch(DispatchError::WrongType))
    );
    assert_eq!(
        run(&mut store, &["RPUSH", "k"]),
        Err(Error::Dispatch(DispatchError::WrongType))
    );
    assert_eq!(store.get("k"), Some(&text("v")));
    assert_eq!(store.keys(), ["k"]);
    assert_eq!(DispatchError::WrongType.to_string(), "Value stored is not a list");
}

#[test]
fn push_onto_an_integer_or_nil_is_a_type_error() {
    let mut store = Store::new();
    store.insert("n".to_string(), RedisType::Integer(1));
    store.insert("nil".to_string(), RedisType::Nil);
    assert_eq!(
        run(&mut store, &["LPUSH", "n", "a"]),
        Err(Error::Dispatch(DispatchError::WrongType))
    );
    assert_eq!(
        run(&mut store, &["RPUSH", "nil", "a"]),
        Err(Error::Dispatch(DispatchError::WrongType))
    );
    assert_eq!(store.get("n"), Some(&RedisType::Integer(1)));
    assert_eq!(store.get("nil"), Some(&RedisType::Nil));
}

#[test]
fn command_replies_nothing() {
    let mut store = Store::new();
    run(&mut store, &["SET", "k", "v"]).unwrap();
    assert_eq!(run(&mut store, &["COMMAND"]), Ok(None));
    assert_eq!(store.keys(), ["k"]);
}

#[test]
fn execute_carries_out_a_parsed_command() {
    let mut store = Store::new();
    let set = parse(&["set", "k", "v"]).unwrap();
    assert_eq!(set.execute(&mut store), Ok(Some(RedisType::Nil)));
    let push = parse(&["lpush", "k", "a"]).unwrap();
    assert_eq!(push.execute(&mut store), Err(DispatchError::WrongType));
    let get = parse(&["get", "k"]).unwrap();
    assert_eq!(get.execute(&mut store), Ok(Some(text("v"))));
}

#[test]
fn a_request_is_decoded_dispatched_and_answered() {
    let input = b"*3\r\n$3\r\nSET\r\n$1\r\nA\r\n$5\r\nhello\r\n";
    let request = decode(input).unwrap();
    assert_eq!(request, vec!["SET", "A", "hello"]);
    let mut store = Store::new();
    let outcome = dispatch(request, &mut store);
    assert_eq!(outcome, Ok(Some(RedisType::Nil)));
    assert_eq!(store.keys(), ["A"]);
    assert_eq!(store.get("A"), Some(&text("hello")));
    assert_eq!(outcome.as_ref().unwrap().as_ref().unwrap().respond(), "$-1\r\n");
    assert_eq!(reply(&outcome), "$-1\r\n");
}

#[test]
fn replies_are_values_acknowledgements_or_errors() {
    assert_eq!(reply(&Ok(Some(text("v")))), "+v\r\n");
    assert_eq!(reply(&Ok(Some(RedisType::Integer(2)))), ":2\r\n");
    assert_eq!(reply(&Ok(Some(list(&["a", "b"])))), "*2\r\n+a\r\n+b\r\n");
    assert_eq!(reply(&Ok(None)), "+OK\r\n");
    assert_eq!(
        reply(&Err(Error::Dispatch(DispatchError::WrongType))),
        "-Value stored is not a list\r\n"
    );
    assert_eq!(
        reply(&Err(Error::Dispatch(DispatchError::LockUnavailable))),
        "-Could not acquire global dictionary\r\n"
    );
    assert_eq!(
        reply(&Err(Error::Parse(ParseError::UnknownCommand))),
        "-Unknown command\r\n"
    );
    let framing = decode(b"*1").unwrap_err();
    assert_eq!(
        reply(&Err(Error::Framing(framing))),
        "-Header did not terminate with \\r\\n\r\n"
    );
}

#[test]
fn a_malformed_request_does_not_touch_the_store() {
    let mut store = Store::new();
    run(&mut store, &["SET", "k", "v"]).unwrap();
    let outcome = match decode(b"*2\r\n$3\r\nGET\r\n$9\r\nk\r\n") {
        Ok(request) => dispatch(request, &mut store),
        Err(e) => Err(Error::Framing(e)),
    };
    assert_eq!(
        reply(&outcome),
        "-Line length differs from the declared length\r\n"
    );
    assert_eq!(run(&mut store, &["GET", "k"]), Ok(Some(text("v"))));
}

#[test]
fn two_sets_of_one_key_leave_one_of_the_two_values() {
    for order in [["1", "2"], ["2", "1"]] {
        let mut store = Store::new();
        for value in order {
            assert_eq!(run(&mut store, &["SET", "k", value]), Ok(Some(RedisType::Nil)));
        }
        assert_eq!(run(&mut store, &["GET", "k"]), Ok(Some(text(order[1]))));
    }
}
