use redis_lite::types::RedisType;
use std::collections::VecDeque;

fn text(s: &str) -> RedisType {
    RedisType::String(s.to_string())
}

fn list(items: Vec<RedisType>) -> RedisType {
    RedisType::List(VecDeque::from(items))
}

#[test]
fn integer_responds_with_its_numeral() {
    assert_eq!(RedisType::Integer(0).respond(), ":0\r\n");
    assert_eq!(RedisType::Integer(7).respond(), ":7\r\n");
    assert_eq!(RedisType::Integer(10).respond(), ":10\r\n");
    assert_eq!(RedisType::Integer(-42).respond(), ":-42\r\n");
    assert_eq!(RedisType::Integer(1234567890).respond(), ":1234567890\r\n");
    assert_eq!(
        RedisType::Integer(i64::MAX).respond(),
        ":9223372036854775807\r\n"
    );
    assert_eq!(
        RedisType::Integer(i64::MIN).respond(),
        ":-9223372036854775808\r\n"
    );
}

#[test]
fn string_responds_with_its_text() {
    assert_eq!(text("hello").respond(), "+hello\r\n");
    assert_eq!(text("").respond(), "+\r\n");
    assert_eq!(text("h\u{e9}llo w\u{f6}rld").respond(), "+h\u{e9}llo w\u{f6}rld\r\n");
}

#[test]
fn nil_responds_with_the_null_marker() {
    assert_eq!(RedisType::Nil.respond(), "$-1\r\n");
}

#[test]
fn list_responds_with_its_length_and_elements() {
    assert_eq!(list(vec![]).respond(), "*0\r\n");
    assert_eq!(
        list(vec![text("c"), text("b"), text("a")]).respond(),
        "*3\r\n+c\r\n+b\r\n+a\r\n"
    );
    assert_eq!(
        list(vec![RedisType::Integer(1), RedisType::Nil, text("x")]).respond(),
        "*3\r\n:1\r\n$-1\r\n+x\r\n"
    );
}

#[test]
fn list_of_lists_responds_recursively() {
    let nested = list(vec![
        list(vec![RedisType::Integer(1), RedisType::Integer(2)]),
        list(vec![]),
        text("end"),
    ]);
    assert_eq!(nested.respond(), "*3\r\n*2\r\n:1\r\n:2\r\n*0\r\n+end\r\n");
}

#[test]
fn list_of_a_dozen_responds_with_a_length_of_two_digits() {
    let items: Vec<RedisType> = (0..12).map(RedisType::Integer).collect();
    let mut expected = String::from("*12\r\n");
    for i in 0..12 {
        expected.push_str(&format!(":{}\r\n", i));
    }
    assert_eq!(list(items).respond(), expected);
}

#[test]
fn respond_into_appends() {
    let mut out = String::from("+OK\r\n");
    RedisType::Integer(5).respond_into(&mut out);
    RedisType::Nil.respond_into(&mut out);
    assert_eq!(out, "+OK\r\n:5\r\n$-1\r\n");
}

#[test]
fn predicates_tell_the_variants_apart() {
    let values = [RedisType::Integer(1), text("s"), list(vec![]), RedisType::Nil];
    let expected = [
        (true, false, false, false),
        (false, true, false, false),
        (false, false, true, false),
        (false, false, false, true),
    ];
    for (value, want) in values.iter().zip(expected) {
        assert_eq!(
            (
                value._is_integer(),
                value._is_string(),
                value.is_list(),
                value._is_nil()
            ),
            want
        );
    }
}

#[test]
fn unwrap_list_gives_the_elements() {
    let items = list(vec![text("a"), RedisType::Integer(2)]).unwrap_list();
    assert_eq!(items, VecDeque::from(vec![text("a"), RedisType::Integer(2)]));
}

#[test]
fn clone_copies_the_content() {
    let value = list(vec![text("a"), list(vec![RedisType::Integer(2), RedisType::Nil])]);
    let copy = value.clone();
    assert_eq!(copy, value);
    assert_eq!(copy.respond(), value.respond());
}

#[test]
fn equality_compares_contents() {
    assert_eq!(RedisType::Integer(3), RedisType::Integer(3));
    assert_ne!(RedisType::Integer(3), RedisType::Integer(4));
    assert_eq!(text("a"), text("a"));
    assert_ne!(text("a"), text("b"));
    assert_ne!(text("3"), RedisType::Integer(3));
    assert_eq!(RedisType::Nil, RedisType::Nil);
    assert_ne!(RedisType::Nil, list(vec![]));
    assert_eq!(list(vec![text("a")]), list(vec![text("a")]));
    assert_ne!(list(vec![text("a")]), list(vec![text("a"), text("a")]));
    assert_ne!(list(vec![text("a"), text("b")]), list(vec![text("b"), text("a")]));
    assert_ne!(
        list(vec![list(vec![text("a")])]),
        list(vec![list(vec![text("b")])])
    );
}

#[test]
fn from_wraps_a_string_or_a_list() {
    assert_eq!(RedisType::from("v".to_string()), text("v"));
    let items = VecDeque::from(vec![text("a")]);
    assert_eq!(RedisType::from(items), list(vec![text("a")]));
}
