//! The request decoder.
//!
//! A request is a header line followed by the lines of its tokens:
//!
//! ```text
//! request := header token*
//! header  := operator count CRLF
//! token   := operator length CRLF payload CRLF
//! ```
//!
//! The operator is one byte, and count and length are decimal numerals. A
//! line ends with its first line feed, so a payload holds none.

use crate::decimal::{lemma_numeral_value, numeral, numeral_value, parse_i64};
use crate::decimal::decimal;
use crate::error::FramingError;
use crate::types::Value;
use vstd::prelude::*;
use vstd::slice::slice_subrange;
use vstd::utf8::{decode_utf8, encode_scalar, encode_utf8, valid_utf8};

verus! {

/// Whether `line` ends with a carriage return and a line feed.
pub open spec fn terminated(line: Seq<u8>) -> bool {
    line.len() >= 2 && line[line.len() - 2] == 13 && line[line.len() - 1] == 10
}

/// A terminated line without its terminator.
pub open spec fn content(line: Seq<u8>) -> Seq<u8> {
    line.take(line.len() - 2)
}

/// The first line of a request, and the line before each payload: an
/// operator and a number.
#[derive(Debug, Clone, Copy, PartialEq, Eq, Structural)]
pub struct Header {
    pub op: u8,
    pub count: i64,
}

/// What a header or length line holds: its first byte is the operator, and
/// the rest of it, up to the terminator, is the numeral of the count.
pub open spec fn parse_header(line: Seq<u8>) -> Result<Header, FramingError> {
    if !terminated(line) {
        Err(FramingError::MissingTerminator)
    } else if content(line).len() == 0 {
        Err(FramingError::MissingOperator)
    } else if content(line).len() == 1 {
        Err(FramingError::MissingCount)
    } else {
        match numeral_value(content(line).skip(1)) {
            Some(count) => Ok(Header { op: content(line)[0], count: count as i64 }),
            None => Err(FramingError::InvalidCount),
        }
    }
}

/// The token that a payload line holds after a line that declares `length`
/// bytes: the text that the line's bytes encode in UTF-8, terminator apart.
pub open spec fn parse_payload(length: int, line: Seq<u8>) -> Result<Seq<char>, FramingError> {
    if !terminated(line) {
        Err(FramingError::MissingLineTerminator)
    } else if content(line).len() != length {
        Err(FramingError::LengthMismatch)
    } else if !valid_utf8(content(line)) {
        Err(FramingError::InvalidText)
    } else {
        Ok(decode_utf8(content(line)))
    }
}

/// `std::str::from_utf8`, whose contract is taken on trust: it gives the
/// text that `bytes` encode where they are valid UTF-8, and an error, here
/// nothing, where they are not.
#[verifier::external_body]
fn text_of(bytes: &[u8]) -> (text: Option<&str>)
    ensures
        match text {
            Some(t) => valid_utf8(bytes@) && t@ == decode_utf8(bytes@),
            None => !valid_utf8(bytes@),
        },
{
    match std::str::from_utf8(bytes) {
        Ok(text) => Some(text),
        Err(_) => None,
    }
}

fn is_terminated(line: &[u8]) -> (b: bool)
    ensures
        b == terminated(line@),
{
    line.len() >= 2 && line[line.len() - 2] == 13 && line[line.len() - 1] == 10
}

impl<'a> TryFrom<&'a [u8]> for Header {
    type Error = FramingError;

    /// Reads a header or length line, terminator included.
    fn try_from(line: &'a [u8]) -> (header: Result<Header, FramingError>)
        ensures
            header == parse_header(line@),
    {
        if !is_terminated(line) {
            return Err(FramingError::MissingTerminator);
        }
        let end = line.len() - 2;
        if end == 0 {
            return Err(FramingError::MissingOperator);
        }
        if end == 1 {
            return Err(FramingError::MissingCount);
        }
        let numeral = slice_subrange(line, 1, end);
        assert(numeral@ =~= content(line@).skip(1));
        match parse_i64(numeral) {
            Some(count) => Ok(Header { op: line[0], count }),
            None => Err(FramingError::InvalidCount),
        }
    }
}

impl<'a> vstd::std_specs::convert::TryFromSpecImpl<&'a [u8]> for Header {
    open spec fn obeys_try_from_spec() -> bool {
        true
    }

    open spec fn try_from_spec(line: &'a [u8]) -> Result<Header, FramingError> {
        parse_header(line@)
    }
}

/// Reads the payload line that follows the length line `header`.
pub fn read_line(header: &Header, line: &[u8]) -> (token: Result<String, FramingError>)
    ensures
        match token {
            Ok(t) => parse_payload(header.count as int, line@) == Ok::<_, FramingError>(t@),
            Err(e) => parse_payload(header.count as int, line@) == Err::<Seq<char>, _>(e),
        },
{
    if !is_terminated(line) {
        return Err(FramingError::MissingLineTerminator);
    }
    let end = line.len() - 2;
    if header.count < 0 || end as u64 != header.count as u64 {
        return Err(FramingError::LengthMismatch);
    }
    let payload = slice_subrange(line, 0, end);
    assert(payload@ =~= content(line@));
    match text_of(payload) {
        Some(text) => Ok(text.to_owned()),
        None => Err(FramingError::InvalidText),
    }
}

/// The length of the first line of `input`: it reaches up to the first line
/// feed and includes it, and is all of `input` where there is none.
pub open spec fn line_len(input: Seq<u8>) -> nat
    decreases input.len(),
{
    if input.len() == 0 {
        0
    } else if input[0] == 10 {
        1
    } else {
        1 + line_len(input.skip(1))
    }
}

/// The first line of `input`.
pub open spec fn first_line(input: Seq<u8>) -> Seq<u8> {
    input.take(line_len(input) as int)
}

/// A line is no longer than the input that it is the first line of.
pub proof fn lemma_line_len_bound(input: Seq<u8>)
    ensures
        line_len(input) <= input.len(),
    decreases input.len(),
{
    if input.len() > 0 && input[0] != 10 {
        lemma_line_len_bound(input.skip(1));
    }
}

/// Where the line that starts at `from` ends.
fn line_end(input: &[u8], from: usize) -> (end: usize)
    requires
        from <= input@.len(),
    ensures
        end == from + line_len(input@.skip(from as int)),
        end <= input@.len(),
{
    let mut i: usize = from;
    while i < input.len() && input[i] != 10
        invariant
            from <= i <= input@.len(),
            line_len(input@.skip(from as int)) == (i - from) + line_len(input@.skip(i as int)),
        decreases input@.len() - i,
    {
        assert(input@.skip(i as int).skip(1) =~= input@.skip(i + 1));
        i = i + 1;
    }
    if i < input.len() {
        i + 1
    } else {
        i
    }
}

/// How far the decoding of one request has come.
pub struct DecoderState {
    /// The tokens read so far.
    pub tokens: Seq<Seq<char>>,
    /// How many tokens are still to come; nothing before the header is read.
    pub remaining: Option<int>,
    /// The length line of the token whose payload is the next line.
    pub length: Option<Header>,
}

impl DecoderState {
    /// The state before the first line.
    pub open spec fn start() -> DecoderState {
        DecoderState { tokens: Seq::empty(), remaining: None, length: None }
    }

    /// Whether the request has been read to its end.
    pub open spec fn complete(self) -> bool {
        self.remaining matches Some(n) && n <= 0
    }

    /// The state after `line`. The first line is the header, which says how
    /// many tokens follow; after it length lines and payload lines take
    /// turns, and each payload adds a token.
    pub open spec fn step(self, line: Seq<u8>) -> Result<DecoderState, FramingError> {
        match (self.remaining, self.length) {
            (None, _) => match parse_header(line) {
                Ok(header) => Ok(
                    DecoderState {
                        tokens: self.tokens,
                        remaining: Some(header.count as int),
                        length: None,
                    },
                ),
                Err(e) => Err(e),
            },
            (Some(_), None) => match parse_header(line) {
                Ok(header) => Ok(DecoderState { length: Some(header), ..self }),
                Err(e) => Err(e),
            },
            (Some(n), Some(header)) => match parse_payload(header.count as int, line) {
                Ok(token) => Ok(
                    DecoderState {
                        tokens: self.tokens.push(token),
                        remaining: Some(n - 1),
                        length: None,
                    },
                ),
                Err(e) => Err(e),
            },
        }
    }

    /// What decoding yields from this state on with `input` still to read:
    /// the tokens once the request is complete, or the error of the first
    /// line that is refused. A header that counts no tokens, or fewer,
    /// completes the request at once.
    pub open spec fn run(self, input: Seq<u8>) -> Result<Seq<Seq<char>>, FramingError>
        decreases input.len(),
        via Self::run_terminates
    {
        if self.complete() {
            Ok(self.tokens)
        } else {
            let line = first_line(input);
            match self.step(line) {
                Ok(next) => next.run(input.skip(line.len() as int)),
                Err(e) => Err(e),
            }
        }
    }

    #[via_fn]
    proof fn run_terminates(self, input: Seq<u8>) {
        // A line that is not refused is terminated, so it is not empty.
        lemma_line_len_bound(input);
    }
}

/// The tokens of the request that `input` starts with.
pub open spec fn parse_request(input: Seq<u8>) -> Result<Seq<Seq<char>>, FramingError> {
    DecoderState::start().run(input)
}

/// A decoder that takes a request line by line.
#[derive(Debug)]
pub struct Decoder {
    tokens: Vec<String>,
    remaining: Option<i64>,
    length: Option<Header>,
}

/// What a decoder has come to after a line.
#[derive(Debug)]
pub enum Progress {
    /// The request goes on: the decoder waits for the next line.
    More(Decoder),
    /// The request is complete, with these tokens.
    Done(Vec<String>),
}

impl View for Decoder {
    type V = DecoderState;

    closed spec fn view(&self) -> DecoderState {
        DecoderState {
            tokens: self.tokens.deep_view(),
            remaining: match self.remaining {
                Some(n) => Some(n as int),
                None => None,
            },
            length: self.length,
        }
    }
}

impl Decoder {
    #[verifier::type_invariant]
    spec fn incomplete(self) -> bool {
        !self@.complete()
    }

    /// A decoder that waits for the header.
    pub fn new() -> (decoder: Decoder)
        ensures
            decoder@ == DecoderState::start(),
    {
        let decoder = Decoder { tokens: Vec::new(), remaining: None, length: None };
        assert(decoder.tokens.deep_view() =~= Seq::empty());
        decoder
    }

    /// Takes the next line of the request, terminator included.
    pub fn feed(self, line: &[u8]) -> (progress: Result<Progress, FramingError>)
        ensures
            !self@.complete(),
            match progress {
                Ok(Progress::More(decoder)) => self@.step(line@) == Ok::<_, FramingError>(
                    decoder@,
                ) && !decoder@.complete(),
                Ok(Progress::Done(tokens)) => self@.step(line@) matches Ok(next) && next.complete()
                    && next.tokens == tokens.deep_view(),
                Err(e) => self@.step(line@) == Err::<DecoderState, _>(e),
            },
    {
        proof {
            use_type_invariant(&self);
        }
        let Decoder { tokens, remaining, length } = self;
        match remaining {
            None => match Header::try_from(line) {
                Ok(header) => {
                    if header.count <= 0 {
                        Ok(Progress::Done(tokens))
                    } else {
                        Ok(
                            Progress::More(
                                Decoder { tokens, remaining: Some(header.count), length: None },
                            ),
                        )
                    }
                },
                Err(e) => Err(e),
            },
            Some(n) => match length {
                None => match Header::try_from(line) {
                    Ok(header) => Ok(
                        Progress::More(Decoder { tokens, remaining, length: Some(header) }),
                    ),
                    Err(e) => Err(e),
                },
                Some(header) => match read_line(&header, line) {
                    Ok(token) => {
                        let mut tokens = tokens;
                        let ghost before = tokens.deep_view();
                        let ghost text = token@;
                        tokens.push(token);
                        assert(tokens.deep_view() =~= before.push(text));
                        if n <= 1 {
                            Ok(Progress::Done(tokens))
                        } else {
                            Ok(
                                Progress::More(
                                    Decoder { tokens, remaining: Some(n - 1), length: None },
                                ),
                            )
                        }
                    },
                    Err(e) => Err(e),
                },
            },
        }
    }
}

/// Decodes the request that `input` starts with into its tokens.
pub fn decode(input: &[u8]) -> (tokens: Result<Vec<String>, FramingError>)
    ensures
        match tokens {
            Ok(tokens) => parse_request(input@) == Ok::<_, FramingError>(tokens.deep_view()),
            Err(e) => parse_request(input@) == Err::<Seq<Seq<char>>, _>(e),
        },
{
    let mut decoder = Decoder::new();
    let mut from: usize = 0;
    assert(input@.skip(0) =~= input@);
    loop
        invariant
            from <= input@.len(),
            !decoder@.complete(),
            parse_request(input@) == decoder@.run(input@.skip(from as int)),
        decreases input@.len() - from,
    {
        let end = line_end(input, from);
        let line = slice_subrange(input, from, end);
        assert(line@ =~= first_line(input@.skip(from as int)));
        assert(input@.skip(from as int).skip(line@.len() as int) =~= input@.skip(end as int));
        proof {
            if let Ok(next) = decoder@.step(line@) {
                assert(decoder@.run(input@.skip(from as int)) == next.run(input@.skip(end as int)));
                if next.complete() {
                    assert(next.run(input@.skip(end as int)) == Ok::<_, FramingError>(next.tokens));
                }
            }
        }
        match decoder.feed(line) {
            Ok(Progress::More(next)) => {
                decoder = next;
                from = end;
            },
            Ok(Progress::Done(tokens)) => {
                return Ok(tokens);
            },
            Err(e) => {
                return Err(e);
            },
        }
    }
}

/// The lines that carry `token` in a request: a dollar sign and the number
/// of the token's bytes, then the bytes.
pub open spec fn token_encoding(token: Seq<char>) -> Seq<u8> {
    seq![36u8] + numeral(encode_utf8(token).len() as int) + seq![13u8, 10u8] + encode_utf8(token)
        + seq![13u8, 10u8]
}

/// The lines that carry `tokens` in a request, one token after the other.
pub open spec fn tokens_encoding(tokens: Seq<Seq<char>>) -> Seq<u8>
    decreases tokens.len(),
{
    if tokens.len() == 0 {
        Seq::empty()
    } else {
        token_encoding(tokens.first()) + tokens_encoding(tokens.drop_first())
    }
}

/// The request that carries `tokens`: an asterisk and the number of tokens,
/// then the tokens.
pub open spec fn request_encoding(tokens: Seq<Seq<char>>) -> Seq<u8> {
    seq![42u8] + numeral(tokens.len() as int) + seq![13u8, 10u8] + tokens_encoding(tokens)
}

/// Whether a request can carry `tokens`: no token holds a line feed, and the
/// number of tokens and of each token's bytes fits the numerals.
pub open spec fn encodable(tokens: Seq<Seq<char>>) -> bool {
    &&& tokens.len() <= i64::MAX
    &&& forall|i: int|
        0 <= i < tokens.len() ==> !(#[trigger] tokens[i]).contains('\n') && encode_utf8(
            tokens[i],
        ).len() <= i64::MAX
}

/// A scalar other than the line feed has no line feed among its bytes.
proof fn lemma_scalar_has_no_line_feed(scalar: u32)
    by (bit_vector)
    requires
        scalar != 10,
        scalar <= 0x10FFFF,
    ensures
        scalar <= 0x7F ==> (scalar & 0x7F) as u8 != 10,
        0xC0 | ((scalar >> 6) & 0x1F) as u8 != 10,
        0xE0 | ((scalar >> 12) & 0x0F) as u8 != 10,
        0xF0 | ((scalar >> 18) & 0x7) as u8 != 10,
        0x80 | (scalar & 0x3F) as u8 != 10,
        0x80 | ((scalar >> 6) & 0x3F) as u8 != 10,
        0x80 | ((scalar >> 12) & 0x3F) as u8 != 10,
{
}

/// Text without a line feed has no line feed among its bytes.
proof fn lemma_text_has_no_line_feed(text: Seq<char>)
    requires
        !text.contains('\n'),
    ensures
        forall|i: int| 0 <= i < encode_utf8(text).len() ==> encode_utf8(text)[i] != 10,
    decreases text.len(),
{
    if text.len() > 0 {
        let rest = text.drop_first();
        assert forall|i: int| 0 <= i < rest.len() implies rest[i] != '\n' by {
            assert(text.contains(text[i + 1]));
        }
        lemma_text_has_no_line_feed(rest);
        assert(text.contains(text[0]));
        let scalar = text[0] as u32;
        vstd::utf8::char_is_scalar(text[0]);
        vstd::utf8::char_u32_cast(text[0], scalar);
        lemma_scalar_has_no_line_feed(scalar);
        let first = encode_scalar(scalar);
        assert forall|i: int| 0 <= i < encode_utf8(text).len() implies encode_utf8(text)[i]
            != 10 by {
            if i >= first.len() {
                assert(encode_utf8(text)[i] == encode_utf8(rest)[i - first.len()]);
            } else {
                assert(encode_utf8(text)[i] == first[i]);
            }
        }
    }
}

/// A line that holds its only line feed at its end is the first line of
/// whatever it stands in front of.
proof fn lemma_first_line(line: Seq<u8>, rest: Seq<u8>)
    requires
        line.len() > 0,
        line.last() == 10,
        forall|i: int| 0 <= i < line.len() - 1 ==> line[i] != 10,
    ensures
        line_len(line + rest) == line.len(),
        first_line(line + rest) == line,
        (line + rest).skip(line.len() as int) == rest,
    decreases line.len(),
{
    if line.len() > 1 {
        assert((line + rest).skip(1) =~= line.skip(1) + rest);
        lemma_first_line(line.skip(1), rest);
        assert((line + rest)[0] == line[0]);
    } else {
        assert((line + rest)[0] == line[0]);
    }
    assert((line + rest).take(line.len() as int) =~= line);
    assert((line + rest).skip(line.len() as int) =~= rest);
}

/// A line made of an operator, the numeral of `count` and the terminator is
/// the header that holds them.
proof fn lemma_header_line(op: u8, count: int, rest: Seq<u8>)
    requires
        op != 10,
        0 <= count <= i64::MAX,
    ensures
        ({
            let line = seq![op] + numeral(count) + seq![13u8, 10u8];
            &&& first_line(line + rest) == line
            &&& (line + rest).skip(line.len() as int) == rest
            &&& parse_header(line) == Ok::<_, FramingError>(Header { op, count: count as i64 })
        }),
{
    let line = seq![op] + numeral(count) + seq![13u8, 10u8];
    lemma_numeral_value(count);
    assert forall|i: int| 0 <= i < line.len() - 1 implies line[i] != 10 by {
        if 0 < i <= numeral(count).len() {
            assert(line[i] == numeral(count)[i - 1]);
        }
    }
    lemma_first_line(line, rest);
    assert(content(line) =~= seq![op] + numeral(count));
    assert(content(line).skip(1) =~= numeral(count));
}

/// A line made of the bytes of `token` and the terminator is the payload
/// that holds `token`.
proof fn lemma_payload_line(token: Seq<char>, rest: Seq<u8>)
    requires
        !token.contains('\n'),
    ensures
        ({
            let line = encode_utf8(token) + seq![13u8, 10u8];
            &&& first_line(line + rest) == line
            &&& (line + rest).skip(line.len() as int) == rest
            &&& parse_payload(encode_utf8(token).len() as int, line) == Ok::<_, FramingError>(
                token,
            )
        }),
{
    let bytes = encode_utf8(token);
    let line = bytes + seq![13u8, 10u8];
    lemma_text_has_no_line_feed(token);
    assert forall|i: int| 0 <= i < line.len() - 1 implies line[i] != 10 by {
        if i < bytes.len() {
            assert(line[i] == bytes[i]);
        }
    }
    lemma_first_line(line, rest);
    assert(content(line) =~= bytes);
    vstd::utf8::encode_utf8_valid_utf8(token);
    vstd::utf8::encode_utf8_decode_utf8(token);
}

/// From a state that expects a token, the lines of `token` lead to the
/// state that holds it.
proof fn lemma_run_token(state: DecoderState, token: Seq<char>, rest: Seq<u8>)
    requires
        state.remaining is Some,
        state.remaining->0 > 0,
        state.length is None,
        !token.contains('\n'),
        encode_utf8(token).len() <= i64::MAX,
    ensures
        state.run(token_encoding(token) + rest) == (DecoderState {
            tokens: state.tokens.push(token),
            remaining: Some(state.remaining->0 - 1),
            length: None,
        }).run(rest),
{
    let length = encode_utf8(token).len() as int;
    let length_line = seq![36u8] + numeral(length) + seq![13u8, 10u8];
    let payload_line = encode_utf8(token) + seq![13u8, 10u8];
    assert(token_encoding(token) + rest =~= length_line + (payload_line + rest));
    lemma_header_line(36u8, length, payload_line + rest);
    let awaiting = DecoderState {
        length: Some(Header { op: 36u8, count: length as i64 }),
        ..state
    };
    assert(state.step(length_line) == Ok::<_, FramingError>(awaiting));
    assert(state.run(length_line + (payload_line + rest)) == awaiting.run(payload_line + rest));
    lemma_payload_line(token, rest);
    let next = DecoderState {
        tokens: state.tokens.push(token),
        remaining: Some(state.remaining->0 - 1),
        length: None,
    };
    assert(awaiting.step(payload_line) == Ok::<_, FramingError>(next));
    assert(awaiting.run(payload_line + rest) == next.run(rest));
}

/// From a state that expects `tokens.len()` more tokens, their lines give
/// these tokens, whatever follows.
proof fn lemma_run_tokens(state: DecoderState, tokens: Seq<Seq<char>>, rest: Seq<u8>)
    requires
        encodable(tokens),
        state.remaining == Some(tokens.len() as int),
        state.length is None,
    ensures
        state.run(tokens_encoding(tokens) + rest) == Ok::<_, FramingError>(state.tokens + tokens),
    decreases tokens.len(),
{
    if tokens.len() == 0 {
        assert(state.tokens + tokens =~= state.tokens);
    } else {
        let token = tokens.first();
        let later = tokens.drop_first();
        let after = tokens_encoding(later) + rest;
        assert(tokens_encoding(tokens) + rest =~= token_encoding(token) + after);
        lemma_run_token(state, token, after);
        let next = DecoderState {
            tokens: state.tokens.push(token),
            remaining: Some(later.len() as int),
            length: None,
        };
        assert forall|i: int| 0 <= i < later.len() implies !(#[trigger] later[i]).contains('\n')
            && encode_utf8(later[i]).len() <= i64::MAX by {
            assert(later[i] == tokens[i + 1]);
        }
        lemma_run_tokens(next, later, rest);
        assert(next.tokens + later =~= state.tokens + tokens);
    }
}

/// Decoding the request that carries `tokens` gives `tokens` back, whatever
/// follows the request.
pub proof fn lemma_decode_request_encoding(tokens: Seq<Seq<char>>, rest: Seq<u8>)
    requires
        encodable(tokens),
    ensures
        parse_request(request_encoding(tokens) + rest) == Ok::<_, FramingError>(tokens),
{
    let count = tokens.len() as int;
    let header_line = seq![42u8] + numeral(count) + seq![13u8, 10u8];
    let after = tokens_encoding(tokens) + rest;
    assert(request_encoding(tokens) + rest =~= header_line + after);
    lemma_header_line(42u8, count, after);
    let start = DecoderState::start();
    let next = DecoderState { tokens: Seq::empty(), remaining: Some(count), length: None };
    assert(start.step(header_line) == Ok::<_, FramingError>(next));
    assert(start.run(header_line + after) == next.run(after));
    lemma_run_tokens(next, tokens, rest);
    assert(next.tokens + tokens =~= tokens);
}

/// The text that carries `value` as one token, for the values that have
/// one: a string is carried by its text, an integer by its numeral.
pub open spec fn bulk_text(value: Value) -> Option<Seq<char>> {
    match value {
        Value::String(text) => Some(text),
        Value::Integer(n) => Some(decimal(n)),
        _ => None,
    }
}

/// The tokens that carry `value` in a request, for the values that a
/// request can carry: a string or an integer makes one token, and a list of
/// strings and integers one token for each element.
pub open spec fn bulk_tokens(value: Value) -> Option<Seq<Seq<char>>> {
    match value {
        Value::List(items) => if forall|i: int|
            0 <= i < items.len() ==> bulk_text(#[trigger] items[i]) is Some {
            Some(Seq::new(items.len(), |i: int| bulk_text(items[i])->Some_0))
        } else {
            None
        },
        Value::Nil => None,
        _ => Some(seq![bulk_text(value)->Some_0]),
    }
}

/// A value that a request can carry comes back from the request as the
/// tokens that carry it.
pub proof fn lemma_decode_value(value: Value, rest: Seq<u8>)
    requires
        bulk_tokens(value) is Some,
        encodable(bulk_tokens(value)->Some_0),
    ensures
        parse_request(request_encoding(bulk_tokens(value)->Some_0) + rest) == Ok::<
            _,
            FramingError,
        >(bulk_tokens(value)->Some_0),
{
    lemma_decode_request_encoding(bulk_tokens(value)->Some_0, rest);
}

} // verus!
