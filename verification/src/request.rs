//! The request state machine: request line, then headers, then done.
//!
//! [`Request::parse`] consumes whatever complete lines the input holds and
//! reports how many bytes it took, so a caller can feed it a growing
//! buffer.  [`request_from_reader`] owns that loop for any [`ByteSource`];
//! its contract pins the outcome to [`spec_request`], a function of the
//! stream bytes alone — reading the same stream in different chunks
//! provably yields the same result.

use vstd::prelude::*;
use vstd::utf8::{decode_utf8, is_char_boundary, valid_utf8};

use crate::encoding::{
    bytes_to_string, lemma_ascii_next_boundary, lemma_boundary_not_cont, lemma_sub_valid,
    lemma_vp, lemma_vp_prefix_mono, lemma_vp_skip, utf8_incomplete_front, utf8_incomplete_tail,
    utf8_valid_prefix, utf8_vp,
};
use crate::error::ParseError;
use crate::grammar::{
    copy_range, crlf_at, find_crlf, first_token_range, is_tchar, is_ws, lemma_find_crlf,
    lemma_find_crlf_prefix, scan_crlf, scan_name, split_ws, valid_field_name_bytes, LF,
};
use crate::headers::{spec_headers_parse, Headers};
use crate::source::ByteSource;

verus! {

/// The bytes of the method token `GET`.
pub open spec fn get_bytes() -> Seq<u8> {
    seq![71u8, 69u8, 84u8]
}

/// The bytes of the method token `POST`.
pub open spec fn post_bytes() -> Seq<u8> {
    seq![80u8, 79u8, 83u8, 84u8]
}

/// The bytes of the fixed version prefix `HTTP/`.
pub open spec fn http_prefix() -> Seq<u8> {
    seq![72u8, 84u8, 84u8, 80u8, 47u8]
}

/// The parsed request line: method, target and version, immutable once
/// constructed.
#[derive(Debug)]
pub struct RequestLine {
    /// The version after the `HTTP/` prefix, e.g. `1.1`.
    pub http_version: String,
    /// The request target, verbatim: no decoding, no validation.
    pub request_target: String,
    /// The method, one of the supported literals.
    pub method: String,
}

/// The mathematical content of a request line.
#[verifier::ext_equal]
pub struct LineModel {
    /// Characters of the method token.
    pub method: Seq<char>,
    /// Characters of the request target.
    pub target: Seq<char>,
    /// Characters of the version, after the `HTTP/` prefix.
    pub version: Seq<char>,
}

impl RequestLine {
    /// The model this request line carries.
    pub open spec fn model(&self) -> LineModel {
        LineModel { method: self.method@, target: self.request_target@, version: self.http_version@ }
    }
}

/// What parsing a request line from the front of `data` yields: either
/// "need more bytes" (consumed 0, no line), or the line and its byte count
/// including the CRLF, or an error.
pub open spec fn spec_parse_request_line(data: Seq<u8>) -> Result<
    (int, Option<LineModel>),
    ParseError,
> {
    match find_crlf(data) {
        None => Ok((0int, None::<LineModel>)),
        Some(n) => {
            let toks = split_ws(data.take(n));
            if toks.len() != 3 {
                Err(ParseError::MalformedRequestLine)
            } else if !valid_field_name_bytes(toks[0]) {
                Err(ParseError::MalformedRequestLine)
            } else if toks[0] != get_bytes() && toks[0] != post_bytes() {
                Err(ParseError::UnsupportedMethod)
            } else if !(toks[2].len() >= 5 && toks[2].take(5) == http_prefix()) {
                Err(ParseError::InvalidHttpVersion)
            } else {
                Ok(
                    (
                        n + 2,
                        Some(
                            LineModel {
                                method: decode_utf8(toks[0]),
                                target: decode_utf8(toks[1]),
                                version: decode_utf8(toks[2].skip(5)),
                            },
                        ),
                    ),
                )
            }
        },
    }
}

/// `spec_parse_request_line` yields a line exactly when it consumes.
pub proof fn lemma_request_line_shape(data: Seq<u8>)
    ensures
        spec_parse_request_line(data) matches Ok((n, ol)) ==> (n == 0 <==> ol is None) && n >= 0,
{
    lemma_find_crlf(data);
}

/// Parses a request line from the front of `data`.  Zero consumed bytes
/// and no line mean the line's CRLF has not arrived yet.
#[verifier::rlimit(100)]
pub fn parse_request_line(data: &[u8]) -> (r: Result<(usize, Option<RequestLine>), ParseError>)
    requires
        valid_utf8(data@),
    ensures
        match spec_parse_request_line(data@) {
            Ok((n, ol)) => r matches Ok((rn, rol)) && rn as int == n && (match ol {
                None => rol is None,
                Some(lm) => rol matches Some(l) && l.model() == lm,
            }),
            Err(e) => r == Err::<(usize, Option<RequestLine>), ParseError>(e),
        },
{
    proof {
        assert(data@.take(data@.len() as int) =~= data@);
    }
    let n = match scan_crlf(data, data.len()) {
        None => {
            return Ok((0, None));
        },
        Some(n) => n,
    };
    let ghost line = data@.take(n as int);
    proof {
        lemma_find_crlf(data@);
    }
    // first token: the method
    let (a0, b0) = match first_token_range(data, 0, n) {
        None => {
            return Err(ParseError::MalformedRequestLine);
        },
        Some(p) => p,
    };
    // second token: the target
    let (a1, b1) = match first_token_range(data, b0, n) {
        None => {
            return Err(ParseError::MalformedRequestLine);
        },
        Some(p) => p,
    };
    // third token: the version
    let (a2, b2) = match first_token_range(data, b1, n) {
        None => {
            return Err(ParseError::MalformedRequestLine);
        },
        Some(p) => p,
    };
    // a fourth token is one too many
    match first_token_range(data, b2, n) {
        Some(_) => {
            return Err(ParseError::MalformedRequestLine);
        },
        None => {},
    };
    let ghost toks = split_ws(line);
    proof {
        assert(toks =~= seq![
            data@.subrange(a0 as int, b0 as int),
            data@.subrange(a1 as int, b1 as int),
            data@.subrange(a2 as int, b2 as int),
        ]);
    }
    // method: must be token-shaped, and a supported literal
    let (_, method_tchar) = scan_name(data, a0, b0);
    if !method_tchar {
        proof {
            lemma_name_transfer(data@, a0 as int, b0 as int);
        }
        return Err(ParseError::MalformedRequestLine);
    }
    proof {
        lemma_name_transfer(data@, a0 as int, b0 as int);
    }
    let is_get = b0 - a0 == 3 && data[a0] == 71 && data[a0 + 1] == 69 && data[a0 + 2] == 84;
    let is_post = b0 - a0 == 4 && data[a0] == 80 && data[a0 + 1] == 79 && data[a0 + 2] == 83
        && data[a0 + 3] == 84;
    proof {
        assert(is_get == (toks[0] == get_bytes())) by {
            if b0 - a0 == 3 {
                assert(toks[0] =~= get_bytes() <==> (data@[a0 as int] == 71 && data@[a0 + 1] == 69
                    && data@[a0 + 2] == 84));
            }
        }
        assert(is_post == (toks[0] == post_bytes())) by {
            if b0 - a0 == 4 {
                assert(toks[0] =~= post_bytes() <==> (data@[a0 as int] == 80 && data@[a0 + 1] == 79
                    && data@[a0 + 2] == 83 && data@[a0 + 3] == 84));
            }
        }
    }
    if !is_get && !is_post {
        return Err(ParseError::UnsupportedMethod);
    }
    // version: must carry the fixed prefix
    let has_prefix = b2 - a2 >= 5 && data[a2] == 72 && data[a2 + 1] == 84 && data[a2 + 2] == 84
        && data[a2 + 3] == 80 && data[a2 + 4] == 47;
    proof {
        assert(has_prefix == (toks[2].len() >= 5 && toks[2].take(5) == http_prefix())) by {
            if b2 - a2 >= 5 {
                assert(toks[2].take(5) =~= http_prefix() <==> (data@[a2 as int] == 72 && data@[a2
                    + 1] == 84 && data@[a2 + 2] == 84 && data@[a2 + 3] == 80 && data@[a2 + 4]
                    == 47));
            }
        }
    }
    if !has_prefix {
        return Err(ParseError::InvalidHttpVersion);
    }
    // copy the three fields out; each token sits between ASCII delimiters
    proof {
        lemma_token_valid(data@, a0 as int, b0 as int, n as int);
        lemma_token_valid(data@, a1 as int, b1 as int, n as int);
        lemma_token_valid(data@, a2 + 5, b2 as int, n as int);
    }
    let method = must_decode(data, a0, b0);
    let target = must_decode(data, a1, b1);
    let version = must_decode(data, a2 + 5, b2);
    proof {
        assert(data@.subrange(a2 + 5, b2 as int) =~= toks[2].skip(5));
    }
    Ok(
        (
            n + 2,
            Some(RequestLine { http_version: version, request_target: target, method: method }),
        ),
    )
}

/// Decodes `data[from..to]`, which the caller has shown to be valid UTF-8.
fn must_decode(data: &[u8], from: usize, to: usize) -> (r: String)
    requires
        from <= to <= data@.len(),
        valid_utf8(data@.subrange(from as int, to as int)),
    ensures
        r@ == decode_utf8(data@.subrange(from as int, to as int)),
{
    let bytes = copy_range(data, from, to);
    match bytes_to_string(bytes.as_slice()) {
        Some(s) => s,
        // the caller's validity proof rules this out
        None => vstd::pervasive::unreached(),
    }
}

/// A token of a request line sitting in valid UTF-8, delimited on the
/// left by the line start, whitespace or the version prefix, and on the
/// right by whitespace or the line's CR, is itself valid UTF-8.
proof fn lemma_token_valid(data: Seq<u8>, a: int, b: int, n: int)
    requires
        valid_utf8(data),
        0 <= a <= b <= n,
        crlf_at(data, n),
        a == 0 || data[a - 1] < 0x80,
        b == n || data[b] < 0x80,
    ensures
        valid_utf8(data.subrange(a, b)),
{
    assert(is_char_boundary(data, a)) by {
        if a == 0 {
            vstd::utf8::is_char_boundary_start_end_of_seq(data);
        } else {
            lemma_ascii_next_boundary(data, a - 1);
        }
    }
    assert(is_char_boundary(data, b)) by {
        if b == n {
            lemma_boundary_not_cont(data, b);
        } else {
            lemma_boundary_not_cont(data, b);
        }
    }
    lemma_sub_valid(data, a, b);
}

/// Token-grammar facts transfer between a subrange and its parent.
proof fn lemma_name_transfer(data: Seq<u8>, a: int, b: int)
    requires
        0 <= a <= b <= data.len(),
    ensures
        valid_field_name_bytes(data.subrange(a, b)) == (b > a && forall|j: int|
            a <= j < b ==> is_tchar(#[trigger] data[j])),
{
    let name = data.subrange(a, b);
    if valid_field_name_bytes(name) {
        assert forall|j: int| a <= j < b implies is_tchar(#[trigger] data[j]) by {
            assert(name[j - a] == data[j]);
        }
    }
    if b > a && forall|j: int| a <= j < b ==> is_tchar(#[trigger] data[j]) {
        assert forall|j: int| 0 <= j < name.len() implies is_tchar(#[trigger] name[j]) by {
            assert(name[j] == data[a + j]);
        }
    }
}

/// The three phases of request parsing, in order.
#[derive(Debug, Clone, Copy)]
pub enum RequestState {
    /// Waiting for the request line.
    ParsingRequestLine,
    /// Request line done; accumulating header lines.
    ParsingHeaders,
    /// The empty line was seen; the request is complete.
    Done,
}

/// The mathematical content of a request being parsed.
#[verifier::ext_equal]
pub struct StateModel {
    /// Current phase.
    pub state: RequestState,
    /// The parsed request line, once the first phase is over.
    pub line: Option<LineModel>,
    /// The accumulated header fields.
    pub headers: Seq<(Seq<u8>, Seq<u8>)>,
}

/// The model a fresh request starts from.
pub open spec fn init_model() -> StateModel {
    StateModel {
        state: RequestState::ParsingRequestLine,
        line: None,
        headers: Seq::empty(),
    }
}

/// What one parsing step does with the remaining bytes `rem`: wait for
/// more input, fail, or consume `n` bytes and move to a new model.  A step
/// only ever looks inside the longest valid UTF-8 prefix of `rem`.
pub enum SpecStep {
    /// No complete line is available yet.
    NeedMore,
    /// The available line is unacceptable; the request is dead.
    Fail(ParseError),
    /// One line was consumed.
    Advance(StateModel, int),
}

/// One transition of the request state machine, as a function of the
/// model and the remaining stream bytes.
pub open spec fn spec_step(m: StateModel, rem: Seq<u8>) -> SpecStep {
    let avail = rem.take(utf8_vp(rem));
    match m.state {
        RequestState::ParsingRequestLine => match spec_parse_request_line(avail) {
            Err(e) => SpecStep::Fail(e),
            Ok((n, ol)) => if n == 0 {
                SpecStep::NeedMore
            } else {
                SpecStep::Advance(
                    StateModel {
                        state: RequestState::ParsingHeaders,
                        line: ol,
                        headers: m.headers,
                    },
                    n,
                )
            },
        },
        RequestState::ParsingHeaders => {
            let (c, done, err, h2) = spec_headers_parse(m.headers, avail);
            if err is Some {
                SpecStep::Fail(err->Some_0)
            } else if done {
                SpecStep::Advance(StateModel { state: RequestState::Done, ..m }, c)
            } else if c == 0 {
                SpecStep::NeedMore
            } else {
                SpecStep::Advance(StateModel { headers: h2, ..m }, c)
            }
        },
        RequestState::Done => SpecStep::NeedMore,
    }
}

/// A step that advances consumes a whole line: at least the two CRLF
/// bytes, at most the valid prefix; its last byte is the LF.
pub proof fn lemma_step_bounds(m: StateModel, rem: Seq<u8>)
    ensures
        spec_step(m, rem) matches SpecStep::Advance(m2, n) ==> 2 <= n <= utf8_vp(rem)
            <= rem.len() && rem[n - 1] == LF,
{
    lemma_vp(rem);
    let avail = rem.take(utf8_vp(rem));
    lemma_find_crlf(avail);
    match spec_step(m, rem) {
        SpecStep::Advance(m2, n) => {
            match find_crlf(avail) {
                Some(c) => {
                    assert(n == c + 2);
                    assert(avail[c + 1] == LF);
                    assert(avail[c + 1] == rem[c + 1]);
                },
                None => {},
            }
        },
        SpecStep::NeedMore => {},
        SpecStep::Fail(_) => {},
    }
}

/// Iterating [`spec_step`] until it cannot advance: the final model, the
/// total bytes consumed, and the error, if one stopped it.
pub open spec fn spec_exhaust(m: StateModel, data: Seq<u8>) -> (StateModel, int, Option<ParseError>)
    decreases data.len(),
    via spec_exhaust_decreases
{
    if m.state is Done {
        (m, 0int, None::<ParseError>)
    } else {
        match spec_step(m, data) {
            SpecStep::NeedMore => (m, 0int, None::<ParseError>),
            SpecStep::Fail(e) => (m, 0int, Some(e)),
            SpecStep::Advance(m2, n) => {
                let (m3, c, e) = spec_exhaust(m2, data.skip(n));
                (m3, n + c, e)
            },
        }
    }
}

#[via_fn]
proof fn spec_exhaust_decreases(m: StateModel, data: Seq<u8>) {
    if !(m.state is Done) {
        lemma_step_bounds(m, data);
    }
}

/// Everything [`spec_exhaust`] guarantees: the consumed count is a
/// character boundary of the input, and when it stops without error short
/// of completion, the leftover genuinely needs more bytes.
pub proof fn lemma_exhaust_props(m: StateModel, data: Seq<u8>)
    requires
        valid_utf8(data),
    ensures
        ({
            let (m3, c, e) = spec_exhaust(m, data);
            &&& 0 <= c <= data.len()
            &&& is_char_boundary(data, c)
            &&& valid_utf8(data.skip(c))
            &&& (e is None && !(m3.state is Done) ==> spec_step(m3, data.skip(c))
                == SpecStep::NeedMore)
            &&& (m.state is Done ==> m3 == m)
        }),
    decreases data.len(),
{
    lemma_vp(data);
    let (m3, c, e) = spec_exhaust(m, data);
    if m.state is Done {
        vstd::utf8::is_char_boundary_start_end_of_seq(data);
        assert(data.skip(0) =~= data);
    } else {
        match spec_step(m, data) {
            SpecStep::NeedMore => {
                vstd::utf8::is_char_boundary_start_end_of_seq(data);
                assert(data.skip(0) =~= data);
            },
            SpecStep::Fail(_) => {
                vstd::utf8::is_char_boundary_start_end_of_seq(data);
                assert(data.skip(0) =~= data);
            },
            SpecStep::Advance(m2, n) => {
                lemma_step_bounds(m, data);
                assert(data.take(utf8_vp(data)) =~= data);
                lemma_ascii_next_boundary(data, n - 1);
                vstd::utf8::valid_utf8_split(data, n);
                lemma_exhaust_props(m2, data.skip(n));
                let (m3b, c2, e2) = spec_exhaust(m2, data.skip(n));
                assert(data.skip(n).skip(c2) =~= data.skip(n + c2));
                assert(is_char_boundary(data, n + c2)) by {
                    if n + c2 == data.len() {
                        vstd::utf8::is_char_boundary_start_end_of_seq(data);
                    } else {
                        vstd::utf8::is_char_boundary_iff_not_is_continuation_byte(
                            data.skip(n),
                            c2,
                        );
                        assert(data.skip(n)[c2] == data[n + c2]);
                        vstd::utf8::is_char_boundary_iff_not_is_continuation_byte(data, n + c2);
                    }
                }
            },
        }
    }
}

/// The aggregate request: the line once parsed, the headers so far, and
/// the phase marker.
#[derive(Debug)]
pub struct Request {
    /// The parsed request line, present once the first phase completes.
    pub request_line: Option<RequestLine>,
    /// The header fields accumulated so far.
    pub headers: Headers,
    /// Where parsing stands.
    pub state: RequestState,
}

impl Request {
    /// The model this request carries.
    pub open spec fn model(&self) -> StateModel {
        StateModel {
            state: self.state,
            line: match self.request_line {
                Some(l) => Some(l.model()),
                None => None,
            },
            headers: self.headers@,
        }
    }

    /// The request's header map is well-formed.
    pub open spec fn wf(&self) -> bool {
        self.headers.wf()
    }

    /// A fresh request, ready to parse a request line.
    pub fn new() -> (r: Request)
        ensures
            r.model() == init_model(),
            r.wf(),
    {
        let r = Request {
            request_line: None,
            headers: Headers::new(),
            state: RequestState::ParsingRequestLine,
        };
        proof {
            assert(r.model() =~~= init_model());
        }
        r
    }

    /// One transition: consumes at most one line from the front of `data`.
    #[verifier::rlimit(50)]
    pub fn parse_single(&mut self, data: &[u8]) -> (r: Result<usize, ParseError>)
        requires
            old(self).wf(),
            valid_utf8(data@),
        ensures
            final(self).wf(),
            match spec_step(old(self).model(), data@) {
                SpecStep::NeedMore => r == Ok::<usize, ParseError>(0) && final(self).model()
                    == old(self).model(),
                SpecStep::Fail(e) => r == Err::<usize, ParseError>(e) && final(self).model()
                    == old(self).model(),
                SpecStep::Advance(m2, n) => r matches Ok(c) && c as int == n && final(self).model()
                    == m2,
            },
    {
        proof {
            lemma_vp(data@);
            assert(data@.take(data@.len() as int) =~= data@);
            lemma_request_line_shape(data@);
            lemma_find_crlf(data@);
        }
        match self.state {
            RequestState::ParsingRequestLine => {
                match parse_request_line(data) {
                    Err(e) => Err(e),
                    Ok((consumed, maybe_line)) => {
                        match maybe_line {
                            Some(line) => {
                                self.request_line = Some(line);
                                self.state = RequestState::ParsingHeaders;
                                proof {
                                    match spec_step(old(self).model(), data@) {
                                        SpecStep::Advance(m2, n) => {
                                            assert(self.model() =~~= m2);
                                        },
                                        SpecStep::NeedMore => {},
                                        SpecStep::Fail(_) => {},
                                    }
                                }
                            },
                            None => {
                                proof {
                                    assert(self.model() =~~= old(self).model());
                                }
                            },
                        }
                        Ok(consumed)
                    },
                }
            },
            RequestState::ParsingHeaders => {
                let (consumed, done, err) = self.headers.parse(data);
                match err {
                    Some(e) => Err(e),
                    None => {
                        if done {
                            self.state = RequestState::Done;
                        }
                        proof {
                            match spec_step(old(self).model(), data@) {
                                SpecStep::Advance(m2, n) => {
                                    assert(self.model() =~~= m2);
                                },
                                SpecStep::NeedMore => {
                                    assert(self.model() =~~= old(self).model());
                                },
                                SpecStep::Fail(_) => {},
                            }
                        }
                        Ok(consumed)
                    },
                }
            },
            RequestState::Done => {
                proof {
                    assert(self.model() =~~= old(self).model());
                }
                Ok(0)
            },
        }
    }

    /// Consumes as many complete lines from `data` as there are, stopping
    /// at completion, at an error, or when the rest of the line has not
    /// arrived yet.  Returns the bytes consumed.
    #[verifier::loop_isolation(false)]
    pub fn parse(&mut self, data: &[u8]) -> (r: Result<usize, ParseError>)
        requires
            old(self).wf(),
            valid_utf8(data@),
        ensures
            final(self).wf(),
            ({
                let (m3, c, e) = spec_exhaust(old(self).model(), data@);
                match r {
                    Ok(n) => n as int == c && e is None && final(self).model() == m3,
                    Err(e2) => e == Some(e2) && final(self).model() == m3,
                }
            }),
    {
        let ghost m0 = self.model();
        let mut total: usize = 0;
        proof {
            assert(data@.skip(0) =~= data@);
        }
        loop
            invariant
                self.wf(),
                total <= data@.len(),
                valid_utf8(data@.skip(total as int)),
                spec_exhaust(m0, data@) == ({
                    let (m3, c, e) = spec_exhaust(self.model(), data@.skip(total as int));
                    (m3, total + c, e)
                }),
            decreases data@.len() - total,
        {
            if matches!(self.state, RequestState::Done) || total >= data.len() {
                proof {
                    if total >= data.len() {
                        assert(data@.skip(total as int) =~= Seq::<u8>::empty());
                        lemma_vp(Seq::<u8>::empty());
                        assert(Seq::<u8>::empty().take(0) =~= Seq::<u8>::empty());
                        lemma_find_crlf(Seq::<u8>::empty());
                        assert(spec_step(self.model(), Seq::<u8>::empty())
                            == SpecStep::NeedMore);
                    }
                }
                return Ok(total);
            }
            let tail = vstd::slice::slice_subrange(data, total, data.len());
            proof {
                assert(tail@ =~= data@.skip(total as int));
            }
            let ghost m_before = self.model();
            let n = match self.parse_single(tail) {
                Err(e) => {
                    return Err(e);
                },
                Ok(n) => n,
            };
            if n == 0 {
                proof {
                    assert(spec_step(m_before, data@.skip(total as int))
                        == SpecStep::NeedMore);
                }
                return Ok(total);
            }
            proof {
                lemma_step_bounds(m_before, data@.skip(total as int));
                lemma_vp(data@.skip(total as int));
                assert(data@.skip(total as int).skip(n as int) =~= data@.skip(total + n));
                assert(valid_utf8(data@.skip(total + n))) by {
                    let t = data@.skip(total as int);
                    lemma_ascii_next_boundary(t, n - 1);
                    vstd::utf8::valid_utf8_split(t, n as int);
                }
            }
            total = total + n;
        }
    }
}

/// A step only looks at the valid prefix: two remainders with the same
/// valid prefix step identically.
pub proof fn lemma_step_same_avail(m: StateModel, r1: Seq<u8>, r2: Seq<u8>)
    requires
        r1.take(utf8_vp(r1)) == r2.take(utf8_vp(r2)),
    ensures
        spec_step(m, r1) == spec_step(m, r2),
{
}

/// A step that acted on `s` acts the same on any extension of `s`: the
/// line it consumed was already complete.
pub proof fn lemma_step_extend(m: StateModel, s: Seq<u8>, t: Seq<u8>)
    ensures
        !(spec_step(m, s) is NeedMore) ==> spec_step(m, s + t) == spec_step(m, s),
{
    if !(spec_step(m, s) is NeedMore) {
        lemma_vp(s);
        lemma_vp(s + t);
        let v1 = utf8_vp(s);
        let v2 = utf8_vp(s + t);
        assert((s + t).take(s.len() as int) =~= s);
        lemma_vp_prefix_mono(s + t, s.len() as int);
        let a1 = s.take(v1);
        let a2 = (s + t).take(v2);
        assert(a1 =~= a2.take(v1));
        lemma_find_crlf(a1);
        lemma_find_crlf(a2);
        match m.state {
            RequestState::ParsingRequestLine => {
                match find_crlf(a1) {
                    None => {
                        // the step would be NeedMore
                        assert(spec_parse_request_line(a1) == Ok::<(int, Option<LineModel>),
                            ParseError>((0int, None::<LineModel>)));
                    },
                    Some(n) => {
                        lemma_find_crlf_prefix(a2, a1);
                        assert(a2.take(n) =~= a1.take(n));
                    },
                }
            },
            RequestState::ParsingHeaders => {
                match find_crlf(a1) {
                    None => {},
                    Some(n) => {
                        lemma_find_crlf_prefix(a2, a1);
                        if n > 0 {
                            assert(a2.take(n) =~= a1.take(n));
                        }
                    },
                }
            },
            RequestState::Done => {},
        }
    }
}

/// Running the machine over the whole remaining stream: the parsed model,
/// or the error that stops it.  When no complete line is available and the
/// stream is over, an undecodable tail is an encoding error; anything else
/// is a premature end of stream.
pub open spec fn spec_run(m: StateModel, rem: Seq<u8>) -> Result<StateModel, ParseError>
    decreases rem.len(),
    via spec_run_decreases
{
    if m.state is Done {
        Ok(m)
    } else {
        match spec_step(m, rem) {
            SpecStep::Fail(e) => Err(e),
            SpecStep::Advance(m2, n) => spec_run(m2, rem.skip(n)),
            SpecStep::NeedMore => if utf8_vp(rem) == rem.len() || utf8_incomplete_front(
                rem.skip(utf8_vp(rem)),
            ) {
                Err(ParseError::PrematureEof)
            } else {
                Err(ParseError::InvalidEncoding)
            },
        }
    }
}

#[via_fn]
proof fn spec_run_decreases(m: StateModel, rem: Seq<u8>) {
    if !(m.state is Done) {
        lemma_step_bounds(m, rem);
    }
}

/// What a whole byte stream parses to.
pub open spec fn spec_request(stream: Seq<u8>) -> Result<StateModel, ParseError> {
    spec_run(init_model(), stream)
}

/// Exhausting the machine on a valid prefix `s` advances the run over any
/// stream that extends `s`: an error already stops the run, and otherwise
/// the run continues from the final model past the consumed bytes.
pub proof fn lemma_exhaust_run(m: StateModel, s: Seq<u8>, t: Seq<u8>)
    requires
        valid_utf8(s),
    ensures
        ({
            let (m3, c, e) = spec_exhaust(m, s);
            match e {
                Some(err) => spec_run(m, s + t) == Err::<StateModel, ParseError>(err),
                None => spec_run(m, s + t) == spec_run(m3, (s + t).skip(c)),
            }
        }),
    decreases s.len(),
{
    lemma_vp(s);
    let (m3, c, e) = spec_exhaust(m, s);
    if m.state is Done {
        assert((s + t).skip(0) =~= s + t);
    } else {
        match spec_step(m, s) {
            SpecStep::NeedMore => {
                assert((s + t).skip(0) =~= s + t);
            },
            SpecStep::Fail(err) => {
                lemma_step_extend(m, s, t);
            },
            SpecStep::Advance(m2, n) => {
                lemma_step_extend(m, s, t);
                lemma_step_bounds(m, s);
                assert(s.take(utf8_vp(s)) =~= s);
                lemma_ascii_next_boundary(s, n - 1);
                vstd::utf8::valid_utf8_split(s, n);
                lemma_exhaust_run(m2, s.skip(n), t);
                assert(s.skip(n) + t =~= (s + t).skip(n));
                let (m3b, c2, e2) = spec_exhaust(m2, s.skip(n));
                match e2 {
                    Some(_) => {},
                    None => {
                        assert((s.skip(n) + t).skip(c2) =~= (s + t).skip(n + c2)) by {
                            lemma_exhaust_props(m2, s.skip(n));
                        }
                    },
                }
            },
        }
    }
}

/// Reads a whole request from `r`.  The outcome — the parsed request or
/// the error — is exactly [`spec_request`] of the source's byte stream:
/// a function of the bytes alone, whatever chunks they arrive in.
#[verifier::loop_isolation(false)]
pub fn request_from_reader<R: ByteSource>(r: R) -> (res: Result<Request, ParseError>)
    ensures
        match res {
            Ok(req) => spec_request(r.stream()) == Ok::<StateModel, ParseError>(req.model())
                && req.state is Done && req.wf(),
            Err(e) => spec_request(r.stream()) == Err::<StateModel, ParseError>(e),
        },
{
    let mut src = r;
    let mut req = Request::new();
    let mut buf: Vec<u8> = Vec::new();
    let ghost stream0 = src.stream();
    proof {
        assert(buf@ + src.stream() =~= stream0);
    }
    loop
        invariant
            req.wf(),
            !(req.model().state is Done),
            spec_run(init_model(), stream0) == spec_run(req.model(), buf@ + src.stream()),
        decreases src.stream().len(),
    {
        let vp = utf8_valid_prefix(buf.as_slice());
        proof {
            lemma_vp(buf@);
        }
        let avail = vstd::slice::slice_subrange(buf.as_slice(), 0, vp);
        proof {
            assert(avail@ =~= buf@.take(vp as int));
        }
        let ghost m_before = req.model();
        let ghost rest = buf@.skip(vp as int) + src.stream();
        proof {
            assert(avail@ + rest =~= buf@ + src.stream());
        }
        let c = match req.parse(avail) {
            Err(e) => {
                proof {
                    lemma_exhaust_run(m_before, avail@, rest);
                }
                return Err(e);
            },
            Ok(c) => c,
        };
        proof {
            lemma_exhaust_props(m_before, avail@);
            lemma_exhaust_run(m_before, avail@, rest);
            assert((avail@ + rest).skip(c as int) =~= buf@.skip(c as int) + src.stream());
        }
        if matches!(req.state, RequestState::Done) {
            return Ok(req);
        }
        let newbuf = copy_range(buf.as_slice(), c, buf.len());
        proof {
            assert(newbuf@ =~= buf@.skip(c as int));
        }
        let ghost oldbuf = buf@;
        buf = newbuf;
        // the machine is stuck on what is left of the buffer
        proof {
            lemma_vp_skip(oldbuf, c as int);
            assert(utf8_vp(buf@) == vp - c);
            assert(buf@.take(utf8_vp(buf@)) =~= avail@.skip(c as int));
            lemma_vp(avail@.skip(c as int));
            assert(avail@.skip(c as int).take(utf8_vp(avail@.skip(c as int))) =~= avail@.skip(
                c as int,
            ));
            lemma_step_same_avail(req.model(), avail@.skip(c as int), buf@);
            assert(spec_step(req.model(), buf@) == SpecStep::NeedMore);
        }
        let ghost s_old = src.stream();
        let chunk = src.read_some(8);
        if chunk.len() == 0 {
            proof {
                assert(src.stream() =~= Seq::<u8>::empty());
                assert(buf@ + src.stream() =~= buf@);
            }
            let vp2 = utf8_valid_prefix(buf.as_slice());
            if vp2 == buf.len() || utf8_incomplete_tail(buf.as_slice(), vp2) {
                return Err(ParseError::PrematureEof);
            } else {
                return Err(ParseError::InvalidEncoding);
            }
        }
        let mut taken = chunk;
        let ghost pre = buf@;
        buf.append(&mut taken);
        proof {
            assert(buf@ + src.stream() =~= pre + s_old);
        }
    }
}

/// A successful parse is always a complete request: the terminal phase
/// was reached and the request line is present.  No partially-built
/// request is ever handed out as a success.
pub proof fn lemma_success_is_complete(stream: Seq<u8>)
    ensures
        spec_request(stream) matches Ok(m) ==> m.state is Done && m.line is Some,
{
    lemma_run_complete(init_model(), stream);
}

proof fn lemma_run_complete(m: StateModel, rem: Seq<u8>)
    requires
        !(m.state is ParsingRequestLine) ==> m.line is Some,
    ensures
        spec_run(m, rem) matches Ok(m2) ==> m2.state is Done && m2.line is Some,
    decreases rem.len(),
{
    if m.state is Done {
    } else {
        match spec_step(m, rem) {
            SpecStep::NeedMore => {},
            SpecStep::Fail(_) => {},
            SpecStep::Advance(m2, n) => {
                lemma_step_bounds(m, rem);
                if m.state is ParsingRequestLine {
                    lemma_request_line_shape(rem.take(utf8_vp(rem)));
                }
                lemma_run_complete(m2, rem.skip(n));
            },
        }
    }
}

/// The parsed result is a function of the stream bytes alone: two sources
/// that will deliver the same bytes — however differently they cut them
/// into reads — give `request_from_reader` the same outcome.  For
/// [`crate::chunk_reader::ChunkReader`] in particular, `new` promises the
/// same stream for every chunk size.
pub proof fn lemma_read_granularity_irrelevant<R1: ByteSource, R2: ByteSource>(r1: &R1, r2: &R2)
    requires
        r1.stream() == r2.stream(),
    ensures
        spec_request(r1.stream()) == spec_request(r2.stream()),
{
}

} // verus!
