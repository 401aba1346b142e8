//! The value model and its wire encoding.

use crate::decimal::{decimal, push_decimal, push_digits};
use std::collections::VecDeque;
use vstd::pervasive::unreached;
use vstd::prelude::*;
use vstd::std_specs::cmp::PartialEqSpecImpl;

verus! {

/// The mathematical content of a [`RedisType`].
pub enum Value {
    Integer(int),
    String(Seq<char>),
    List(Seq<Value>),
    Nil,
}

/// A datum that the store holds or that a reply carries.
#[derive(Debug)]
pub enum RedisType {
    Integer(i64),
    String(String),
    List(VecDeque<RedisType>),
    Nil,
}

impl View for RedisType {
    type V = Value;

    open spec fn view(&self) -> Value
        decreases self,
    {
        match self {
            RedisType::Integer(n) => Value::Integer(*n as int),
            RedisType::String(s) => Value::String(s@),
            RedisType::List(items) => Value::List(
                Seq::new(
                    items@.len(),
                    |i: int|
                        if 0 <= i < items@.len() {
                            items@[i].view()
                        } else {
                            Value::Nil
                        },
                ),
            ),
            RedisType::Nil => Value::Nil,
        }
    }
}

/// The contents of `items`, one by one.
pub open spec fn views(items: Seq<RedisType>) -> Seq<Value> {
    Seq::new(items.len(), |i: int| items[i]@)
}

/// A list value holds the contents of its elements.
pub proof fn lemma_list_view(items: VecDeque<RedisType>)
    ensures
        RedisType::List(items)@ == Value::List(views(items@)),
{
    assert(RedisType::List(items)@->List_0 =~= views(items@));
}

/// The content of what a request came to: of the value, where there is one.
pub open spec fn reply_view<E>(reply: Result<Option<RedisType>, E>) -> Result<Option<Value>, E> {
    match reply {
        Ok(Some(value)) => Ok(Some(value@)),
        Ok(None) => Ok(None),
        Err(e) => Err(e),
    }
}

/// The line terminator of the wire format.
pub open spec fn crlf() -> Seq<char> {
    seq!['\r', '\n']
}

/// The reply that carries `value`: a colon and the numeral for an integer,
/// a plus sign and the text for a string, an asterisk and the element count
/// followed by each element's own encoding for a list, and `$-1` for nil;
/// each of these lines ends with the line terminator.
pub open spec fn encoding(value: Value) -> Seq<char>
    decreases value, 0nat,
{
    match value {
        Value::Integer(n) => seq![':'] + decimal(n) + crlf(),
        Value::String(s) => seq!['+'] + s + crlf(),
        Value::List(items) => seq!['*'] + decimal(items.len() as int) + crlf() + encoding_of_first(
            items,
            items.len(),
        ),
        Value::Nil => seq!['$', '-', '1'] + crlf(),
    }
}

/// The encodings of the first `n` of `items`, one after the other.
pub open spec fn encoding_of_first(items: Seq<Value>, n: nat) -> Seq<char>
    decreases items, n,
{
    if n == 0 || n > items.len() {
        Seq::empty()
    } else {
        encoding_of_first(items, (n - 1) as nat) + encoding(items[n - 1])
    }
}

impl RedisType {
    /// The reply that carries this value.
    pub fn respond(&self) -> (reply: String)
        ensures
            reply@ == encoding(self@),
    {
        let mut reply = String::new();
        self.respond_into(&mut reply);
        reply
    }

    /// Appends the reply that carries this value to `out`.
    pub fn respond_into(&self, out: &mut String)
        ensures
            final(out)@ == old(out)@ + encoding(self@),
        decreases self,
    {
        match self {
            RedisType::Integer(n) => {
                out.push(':');
                push_decimal(out, *n);
                out.push('\r');
                out.push('\n');
                assert(out@ =~= old(out)@ + encoding(self@));
            },
            RedisType::String(s) => {
                out.push('+');
                out.append(s.as_str());
                out.push('\r');
                out.push('\n');
                assert(out@ =~= old(out)@ + encoding(self@));
            },
            RedisType::List(items) => {
                out.push('*');
                push_digits(out, items.len() as u64);
                out.push('\r');
                out.push('\n');
                let ghost head = out@;
                let ghost model = self@->List_0;
                assert(head =~= old(out)@ + (seq!['*'] + decimal(model.len() as int) + crlf()));
                let mut i: usize = 0;
                while i < items.len()
                    invariant
                        i <= items@.len(),
                        self is List,
                        self->List_0 == *items,
                        model == self@->List_0,
                        model.len() == items@.len(),
                        out@ == head + encoding_of_first(model, i as nat),
                    decreases items@.len() - i,
                {
                    items[i].respond_into(out);
                    i = i + 1;
                }
                assert(out@ =~= old(out)@ + encoding(self@));
            },
            RedisType::Nil => {
                out.push('$');
                out.push('-');
                out.push('1');
                out.push('\r');
                out.push('\n');
                assert(out@ =~= old(out)@ + encoding(self@));
            },
        }
    }

    /// Whether this is an integer.
    pub fn _is_integer(&self) -> (b: bool)
        ensures
            b == (self is Integer),
    {
        match self {
            RedisType::Integer(_) => true,
            _ => false,
        }
    }

    /// Whether this is a string.
    pub fn _is_string(&self) -> (b: bool)
        ensures
            b == (self is String),
    {
        match self {
            RedisType::String(_) => true,
            _ => false,
        }
    }

    /// Whether this is a list.
    pub fn is_list(&self) -> (b: bool)
        ensures
            b == (self is List),
    {
        match self {
            RedisType::List(_) => true,
            _ => false,
        }
    }

    /// Whether this is nil.
    pub fn _is_nil(&self) -> (b: bool)
        ensures
            b == (self is Nil),
    {
        match self {
            RedisType::Nil => true,
            _ => false,
        }
    }

    /// The elements of a list value.
    pub fn unwrap_list(self) -> (items: VecDeque<RedisType>)
        requires
            self is List,
        ensures
            self == RedisType::List(items),
    {
        match self {
            RedisType::List(items) => items,
            _ => unreached(),
        }
    }
}

impl Clone for RedisType {
    fn clone(&self) -> (copy: Self)
        ensures
            copy@ == self@,
    {
        self.duplicate()
    }
}

impl RedisType {
    /// A copy with the same content; a list is copied element by element.
    fn duplicate(&self) -> (copy: Self)
        ensures
            copy@ == self@,
        decreases self,
    {
        match self {
            RedisType::Integer(n) => RedisType::Integer(*n),
            RedisType::String(s) => RedisType::String(s.clone()),
            RedisType::List(items) => {
                let mut copies: VecDeque<RedisType> = VecDeque::new();
                let mut i: usize = 0;
                while i < items.len()
                    invariant
                        i <= items@.len(),
                        self is List,
                        self->List_0 == *items,
                        copies@.len() == i,
                        forall|j: int| 0 <= j < i ==> copies@[j]@ == items@[j]@,
                    decreases items@.len() - i,
                {
                    copies.push_back(items[i].duplicate());
                    i = i + 1;
                }
                let copy = RedisType::List(copies);
                assert(copy@->List_0 =~= self@->List_0);
                copy
            },
            RedisType::Nil => RedisType::Nil,
        }
    }
}

impl PartialEq for RedisType {
    fn eq(&self, other: &Self) -> (b: bool) {
        self.same(other)
    }
}

impl PartialEqSpecImpl for RedisType {
    open spec fn obeys_eq_spec() -> bool {
        true
    }

    /// Two values are equal where their contents are.
    open spec fn eq_spec(&self, other: &Self) -> bool {
        self@ == other@
    }
}

impl RedisType {
    /// Whether the two values have the same content.
    fn same(&self, other: &Self) -> (b: bool)
        ensures
            b == (self@ == other@),
        decreases self,
    {
        match (self, other) {
            (RedisType::Integer(m), RedisType::Integer(n)) => *m == *n,
            (RedisType::String(s), RedisType::String(t)) => *s == *t,
            (RedisType::List(xs), RedisType::List(ys)) => {
                if xs.len() != ys.len() {
                    assert(self@->List_0.len() != other@->List_0.len());
                    return false;
                }
                let mut i: usize = 0;
                while i < xs.len()
                    invariant
                        i <= xs@.len(),
                        xs@.len() == ys@.len(),
                        self is List,
                        self->List_0 == *xs,
                        other is List,
                        other->List_0 == *ys,
                        forall|j: int| 0 <= j < i ==> xs@[j]@ == ys@[j]@,
                    decreases xs@.len() - i,
                {
                    if !xs[i].same(&ys[i]) {
                        assert(self@->List_0[i as int] != other@->List_0[i as int]);
                        return false;
                    }
                    i = i + 1;
                }
                assert(self@->List_0 =~= other@->List_0);
                true
            },
            (RedisType::Nil, RedisType::Nil) => true,
            _ => false,
        }
    }
}

impl From<String> for RedisType {
    fn from(other: String) -> (value: Self) {
        RedisType::String(other)
    }
}

impl vstd::std_specs::convert::FromSpecImpl<String> for RedisType {
    open spec fn obeys_from_spec() -> bool {
        true
    }

    open spec fn from_spec(other: String) -> Self {
        RedisType::String(other)
    }
}

impl From<VecDeque<RedisType>> for RedisType {
    fn from(other: VecDeque<RedisType>) -> (value: Self) {
        RedisType::List(other)
    }
}

impl vstd::std_specs::convert::FromSpecImpl<VecDeque<RedisType>> for RedisType {
    open spec fn obeys_from_spec() -> bool {
        true
    }

    open spec fn from_spec(other: VecDeque<RedisType>) -> Self {
        RedisType::List(other)
    }
}

} // verus!
