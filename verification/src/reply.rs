//! The reply to a request.

use crate::error::Error;
use crate::types::{crlf, encoding, reply_view, RedisType, Value};
use vstd::prelude::*;

verus! {

/// The reply to a request: the encoding of the value that it came to; an
/// acknowledgement, `+OK`, where it came to none; and for an error a minus
/// sign and the text that reports it. Each of the latter two is one
/// terminated line.
pub open spec fn reply_encoding(outcome: Result<Option<Value>, Error>) -> Seq<char> {
    match outcome {
        Ok(Some(value)) => encoding(value),
        Ok(None) => seq!['+', 'O', 'K'] + crlf(),
        Err(e) => seq!['-'] + e.message() + crlf(),
    }
}

/// Writes the reply to a request.
pub fn reply(outcome: &Result<Option<RedisType>, Error>) -> (text: String)
    ensures
        text@ == reply_encoding(reply_view(*outcome)),
{
    match outcome {
        Ok(Some(value)) => value.respond(),
        Ok(None) => {
            let mut text = String::new();
            text.push('+');
            text.push('O');
            text.push('K');
            text.push('\r');
            text.push('\n');
            assert(text@ =~= seq!['+', 'O', 'K'] + crlf());
            text
        },
        Err(e) => {
            let mut text = String::new();
            text.push('-');
            text.append(e.to_string().as_str());
            text.push('\r');
            text.push('\n');
            assert(text@ =~= seq!['-'] + e.message() + crlf());
            text
        },
    }
}

} // verus!
