//! Parsing a raw HTTP response into status code, size and body.

use vstd::prelude::*;

use crate::lines::{
    join_lines, join_lines_vec, split_lines, split_lines_vec, split_tokens, split_tokens_vec,
};
use crate::numbers::{parse_u16, token_val, u16_token_ok};

verus! {

/// One HTTP exchange result: elapsed milliseconds, the numeric status code,
/// the byte size of the whole raw response, and the body text (empty unless
/// it was asked for).
pub struct Response {
    pub time_taken: u128,
    pub status: u16,
    pub size: usize,
    pub body: Vec<u8>,
}

/// Why a raw response failed to parse.
#[derive(Debug, PartialEq, Eq, Structural)]
pub enum ParseError {
    /// The response has no lines at all, so no status line.
    MissingStatusLine,
    /// The status line has no second token.
    MissingStatusToken,
    /// The second token of the status line is not an unsigned 16-bit number.
    BadStatusCode,
}

/// The response has at least a first line.
pub open spec fn has_status_line(s: Seq<u8>) -> bool {
    split_lines(s).len() > 0
}

/// The first line, split at spaces, has a second token.
pub open spec fn has_status_token(s: Seq<u8>) -> bool {
    has_status_line(s) && split_tokens(split_lines(s)[0]).len() >= 2
}

/// The second token of the status line.
pub open spec fn status_token(s: Seq<u8>) -> Seq<u8> {
    split_tokens(split_lines(s)[0])[1]
}

/// The status line parses: it exists, has a second token, and that token is
/// an unsigned 16-bit decimal number.
pub open spec fn status_ok(s: Seq<u8>) -> bool {
    has_status_token(s) && u16_token_ok(status_token(s))
}

/// The parsed status code.
pub open spec fn status_val(s: Seq<u8>) -> int {
    token_val(status_token(s))
}

/// Index of the first blank line, or `lines.len()` when there is none.
pub open spec fn first_blank(lines: Seq<Seq<u8>>) -> nat
    decreases lines.len(),
{
    if lines.len() == 0 {
        0
    } else if lines[0].len() == 0 {
        0
    } else {
        1 + first_blank(lines.drop_first())
    }
}

/// `first_blank` is pinned down by its characterisation.
pub proof fn lemma_first_blank_is(lines: Seq<Seq<u8>>, i: int)
    requires
        0 <= i <= lines.len(),
        forall|j: int| 0 <= j < i ==> lines[j].len() != 0,
        i < lines.len() ==> lines[i].len() == 0,
    ensures
        first_blank(lines) == i,
    decreases lines.len(),
{
    if lines.len() > 0 && lines[0].len() != 0 {
        assert(forall|j: int| 0 <= j < i - 1 ==> lines.drop_first()[j].len() != 0);
        lemma_first_blank_is(lines.drop_first(), i - 1);
    }
}

/// The body of a response, as its lines frame it: everything after the
/// first blank line, joined with newlines; empty when no blank line exists
/// (in particular when the blank line is the last line).
pub open spec fn body_of(lines: Seq<Seq<u8>>) -> Seq<u8> {
    let i = first_blank(lines);
    if i < lines.len() {
        join_lines(lines.skip(i + 1 as int))
    } else {
        Seq::empty()
    }
}

/// When no blank line exists among a response's lines, the extracted body
/// is empty.
pub proof fn lemma_no_blank_line_empty_body(lines: Seq<Seq<u8>>)
    requires
        forall|j: int| 0 <= j < lines.len() ==> lines[j].len() != 0,
    ensures
        body_of(lines) == Seq::<u8>::empty(),
{
    lemma_first_blank_is(lines, lines.len() as int);
}

/// An empty response has no status line at all, so parsing it fails
/// rather than yielding a default status code.
pub proof fn lemma_empty_response_fails()
    ensures
        !has_status_line(Seq::<u8>::empty()),
{
}

/// Extracts the body from the split lines of a response: the first blank
/// line ends the headers, and everything after it, newline-joined, is the
/// body.
pub fn extract_body(lines: &Vec<Vec<u8>>) -> (r: Vec<u8>)
    ensures
        r@ == body_of(lines.deep_view()),
{
    let n = lines.len();
    let ghost dv = lines.deep_view();
    let mut i: usize = 0;
    while i < n && lines[i].len() != 0
        invariant
            i <= n == dv.len(),
            dv == lines.deep_view(),
            forall|j: int| 0 <= j < i ==> dv[j].len() != 0,
        decreases n - i,
    {
        proof {
            assert(dv[i as int] =~= lines@[i as int]@);
        }
        i = i + 1;
    }
    proof {
        if i < n {
            assert(dv[i as int] =~= lines@[i as int]@);
        }
        lemma_first_blank_is(dv, i as int);
    }
    if i < n {
        let body = join_lines_vec(lines, i + 1);
        body
    } else {
        Vec::new()
    }
}

/// Parses a raw response: the first line is the status line, its second
/// token the status code; the size is the byte length of the whole raw
/// response; the body is extracted only when `need_body` is set. A missing
/// status line or a non-numeric status token is an error, never a default.
pub fn parse_response(response: &[u8], request_time: u128, need_body: bool) -> (r: Result<
    Response,
    ParseError,
>)
    ensures
        r is Ok <==> status_ok(response@),
        r is Ok ==> ({
            let resp = r->Ok_0;
            &&& resp.time_taken == request_time
            &&& resp.status == status_val(response@)
            &&& resp.size == response@.len()
            &&& resp.body@ == if need_body {
                body_of(split_lines(response@))
            } else {
                Seq::<u8>::empty()
            }
        }),
        r == Err::<Response, ParseError>(ParseError::MissingStatusLine) <==> !has_status_line(
            response@,
        ),
        r == Err::<Response, ParseError>(ParseError::MissingStatusToken) <==> has_status_line(
            response@,
        ) && !has_status_token(response@),
        r == Err::<Response, ParseError>(ParseError::BadStatusCode) <==> has_status_token(
            response@,
        ) && !u16_token_ok(status_token(response@)),
{
    let lines = split_lines_vec(response);
    if lines.len() == 0 {
        return Err(ParseError::MissingStatusLine);
    }
    proof {
        assert(lines.deep_view()[0] =~= lines@[0]@);
    }
    let tokens = split_tokens_vec(lines[0].as_slice());
    if tokens.len() < 2 {
        return Err(ParseError::MissingStatusToken);
    }
    proof {
        assert(tokens.deep_view()[1] =~= tokens@[1]@);
    }
    match parse_u16(tokens[1].as_slice()) {
        None => Err(ParseError::BadStatusCode),
        Some(code) => {
            let body = if need_body {
                extract_body(&lines)
            } else {
                Vec::new()
            };
            Ok(
                Response {
                    time_taken: request_time,
                    status: code,
                    size: response.len(),
                    body,
                },
            )
        },
    }
}

} // verus!
