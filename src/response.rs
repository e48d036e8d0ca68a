//! Responses and the decoder that frames them: status line, header fields,
//! then a body delimited by `Content-Length` or chunked transfer encoding.
use vstd::prelude::*;
use vstd::utf8::*;
use vstd::slice::{slice_to_vec, slice_subrange};
use crate::text::{trim, trim_bounds, is_space, parse_number, parse_digits, compare_bytes, ascii_lower, utf8_string};
use crate::fields::{Entry, HttpHeader, lookup, inserted};

verus! {

/// Why a response could not be decoded.
#[derive(Debug, Clone)]
pub enum HttpError {
    /// The stream failed, as reported by its reader.
    Io(String),
    /// The stream ended before the response was complete.
    UnexpectedEof,
    /// The status line has no second token.
    MissingStatus,
    /// The status token is not an unsigned 32-bit number (the status line).
    InvalidStatus(Vec<u8>),
    /// A header line has no `:` separator (the line).
    InvalidHeader(Vec<u8>),
    /// The status line, or a header line's name or value, is not UTF-8
    /// (the line).
    InvalidEncoding(Vec<u8>),
    /// Neither chunked transfer encoding nor a `Content-Length` is given.
    MissingFraming,
    /// `Content-Length` is not a decimal number (its bytes).
    InvalidContentLength(Vec<u8>),
    /// A chunk-size line is not a hexadecimal number (the line).
    InvalidChunkSize(Vec<u8>),
}

/// An [`HttpError`] with its bytes and text as sequences.
pub enum ErrorView {
    Io(Seq<char>),
    UnexpectedEof,
    MissingStatus,
    InvalidStatus(Seq<u8>),
    InvalidHeader(Seq<u8>),
    InvalidEncoding(Seq<u8>),
    MissingFraming,
    InvalidContentLength(Seq<u8>),
    InvalidChunkSize(Seq<u8>),
}

impl View for HttpError {
    type V = ErrorView;

    open spec fn view(&self) -> ErrorView {
        match self {
            HttpError::Io(s) => ErrorView::Io(s@),
            HttpError::UnexpectedEof => ErrorView::UnexpectedEof,
            HttpError::MissingStatus => ErrorView::MissingStatus,
            HttpError::InvalidStatus(l) => ErrorView::InvalidStatus(l@),
            HttpError::InvalidHeader(l) => ErrorView::InvalidHeader(l@),
            HttpError::InvalidEncoding(l) => ErrorView::InvalidEncoding(l@),
            HttpError::MissingFraming => ErrorView::MissingFraming,
            HttpError::InvalidContentLength(l) => ErrorView::InvalidContentLength(l@),
            HttpError::InvalidChunkSize(l) => ErrorView::InvalidChunkSize(l@),
        }
    }
}

/// A decoded response. `body` is `None` only for statuses 204 and 304.
#[derive(Debug, Clone)]
pub struct Response {
    pub status: u32,
    pub header: HttpHeader,
    pub body: Option<Vec<u8>>,
}

/// A [`Response`] as plain values.
pub struct ResponseView {
    pub status: u32,
    pub header: Seq<Entry>,
    pub body: Option<Seq<u8>>,
}

impl View for Response {
    type V = ResponseView;

    open spec fn view(&self) -> ResponseView {
        ResponseView {
            status: self.status,
            header: self.header@,
            body: match self.body {
                Some(b) => Some(b@),
                None => None,
            },
        }
    }
}

// ---------------------------------------------------------------------
// Line-level grammar.

/// First index at or after `i` that is not whitespace (or the end).
pub open spec fn skip_spaces(s: Seq<u8>, i: int) -> int
    decreases s.len() - i,
{
    if 0 <= i < s.len() && is_space(s[i]) {
        skip_spaces(s, i + 1)
    } else {
        i
    }
}

/// First index at or after `i` that is whitespace (or the end).
pub open spec fn skip_token(s: Seq<u8>, i: int) -> int
    decreases s.len() - i,
{
    if 0 <= i < s.len() && !is_space(s[i]) {
        skip_token(s, i + 1)
    } else {
        i
    }
}

/// The second whitespace-delimited token of a line, if it has one.
pub open spec fn second_token(line: Seq<u8>) -> Option<Seq<u8>> {
    let a = skip_spaces(line, 0);
    let b = skip_token(line, a);
    let c = skip_spaces(line, b);
    let d = skip_token(line, c);
    if c < d {
        Some(line.subrange(c, d))
    } else {
        None
    }
}

/// The status code of a status line such as `HTTP/1.1 200 OK`; the line
/// must be UTF-8.
pub open spec fn status_of(line: Seq<u8>) -> Result<u32, ErrorView> {
    if !valid_utf8(line) {
        Err(ErrorView::InvalidEncoding(line))
    } else {
        match second_token(line) {
            None => Err(ErrorView::MissingStatus),
            Some(t) => match parse_number(t, 10) {
                Some(n) if n <= u32::MAX => Ok(n as u32),
                _ => Err(ErrorView::InvalidStatus(line)),
            },
        }
    }
}

/// Index of the first `:` at or after `i`.
pub open spec fn colon_from(t: Seq<u8>, i: int) -> Option<int>
    decreases t.len() - i,
{
    if i < 0 || i >= t.len() {
        None
    } else if t[i] == 58 {
        Some(i)
    } else {
        colon_from(t, i + 1)
    }
}

/// Name and value bytes of a header line: the line split at its first `:`,
/// each side trimmed of whitespace. The value may be empty.
pub open spec fn header_parts(line: Seq<u8>) -> Option<(Seq<u8>, Seq<u8>)> {
    match colon_from(line, 0) {
        Some(i) => Some(
            (trim(line.subrange(0, i)), trim(line.subrange(i + 1, line.len() as int))),
        ),
        None => None,
    }
}

/// Index just past the first LF at or after `i`, or the end of `s`.
pub open spec fn line_end(s: Seq<u8>, i: int) -> int
    decreases s.len() - i,
{
    if i < 0 || i >= s.len() {
        s.len() as int
    } else if s[i] == 10 {
        i + 1
    } else {
        line_end(s, i + 1)
    }
}

/// The line terminator CR LF.
pub open spec fn crlf() -> Seq<u8> {
    seq![13u8, 10u8]
}

// ---------------------------------------------------------------------
// Body framing.

/// How the body of a response is delimited.
pub enum Framing {
    NoBody,
    Chunked,
    Fixed(usize),
    Missing,
    BadLength(Seq<u8>),
}

/// Statuses 204 and 304 have no body; otherwise chunked transfer encoding
/// wins over `Content-Length`, and one of the two must be given.
pub open spec fn framing(status: u32, h: Seq<Entry>) -> Framing {
    if status == 204 || status == 304 {
        Framing::NoBody
    } else if lookup(h, "transfer-encoding"@) == Some("chunked"@) {
        Framing::Chunked
    } else {
        match lookup(h, "content-length"@) {
            Some(v) => match parse_number(encode_utf8(v), 10) {
                Some(n) => Framing::Fixed(n),
                None => Framing::BadLength(encode_utf8(v)),
            },
            None => Framing::Missing,
        }
    }
}

// ---------------------------------------------------------------------
// The decoder as a state machine.

/// Where the decoder stands.
#[derive(Debug, Clone, Copy, PartialEq, Eq, Structural)]
pub enum Phase {
    StatusLine,
    Headers,
    FixedBody(usize),
    ChunkSize,
    ChunkData(usize),
    ChunkEnd,
    Trailer,
    Done,
    NoBody,
    Failed,
}

/// What the decoder needs next from the stream.
#[derive(Debug, Clone, Copy, PartialEq, Eq, Structural)]
pub enum Action {
    /// The bytes up to and including the next LF (fewer at the end of the
    /// stream, none once it has ended).
    ReadLine,
    /// Exactly this many bytes.
    ReadExact(usize),
    /// Nothing: the response is decoded or has failed.
    Finished,
}

/// What is read in each phase.
pub open spec fn action_of(p: Phase) -> Action {
    match p {
        Phase::StatusLine | Phase::Headers | Phase::ChunkSize | Phase::ChunkEnd
        | Phase::Trailer => Action::ReadLine,
        Phase::FixedBody(n) | Phase::ChunkData(n) => Action::ReadExact(n),
        _ => Action::Finished,
    }
}

/// A decoder's state: its phase, the status and header fields read so far,
/// the body bytes gathered, and the error once it has failed.
pub struct DecoderView {
    pub phase: Phase,
    pub status: u32,
    pub header: Seq<Entry>,
    pub body: Seq<u8>,
    pub error: Option<ErrorView>,
}

/// The state before the status line.
pub open spec fn initial() -> DecoderView {
    DecoderView {
        phase: Phase::StatusLine,
        status: 0,
        header: Seq::empty(),
        body: Seq::empty(),
        error: None,
    }
}

/// The failed state carrying `e`.
pub open spec fn fail(d: DecoderView, e: ErrorView) -> DecoderView {
    DecoderView { phase: Phase::Failed, error: Some(e), ..d }
}

/// The same state in phase `p`.
pub open spec fn to_phase(d: DecoderView, p: Phase) -> DecoderView {
    DecoderView { phase: p, ..d }
}

/// The state after the blank line that ends the header fields.
pub open spec fn after_head(d: DecoderView) -> DecoderView {
    match framing(d.status, d.header) {
        Framing::NoBody => to_phase(d, Phase::NoBody),
        Framing::Chunked => to_phase(d, Phase::ChunkSize),
        Framing::Fixed(n) => to_phase(d, Phase::FixedBody(n)),
        Framing::Missing => fail(d, ErrorView::MissingFraming),
        Framing::BadLength(v) => fail(d, ErrorView::InvalidContentLength(v)),
    }
}

/// The state after a header line: its field is stored, the name lower-cased.
pub open spec fn after_header_line(d: DecoderView, line: Seq<u8>) -> DecoderView {
    match header_parts(line) {
        None => fail(d, ErrorView::InvalidHeader(line)),
        Some((k, v)) => if valid_utf8(k) && valid_utf8(v) {
            DecoderView {
                header: inserted(d.header, ascii_lower(decode_utf8(k)), decode_utf8(v)),
                ..d
            }
        } else {
            fail(d, ErrorView::InvalidEncoding(line))
        },
    }
}

/// The state after reading `line`; an empty line means the stream ended.
pub open spec fn step_line(d: DecoderView, line: Seq<u8>) -> DecoderView {
    match d.phase {
        Phase::StatusLine => match status_of(line) {
            Ok(s) => DecoderView { phase: Phase::Headers, status: s, ..d },
            Err(e) => fail(d, e),
        },
        Phase::Headers => if line.len() == 0 {
            fail(d, ErrorView::UnexpectedEof)
        } else if line == crlf() {
            after_head(d)
        } else {
            after_header_line(d, line)
        },
        Phase::ChunkSize => if line.len() == 0 {
            fail(d, ErrorView::UnexpectedEof)
        } else {
            match parse_number(trim(line), 16) {
                None => fail(d, ErrorView::InvalidChunkSize(line)),
                Some(n) => if n == 0 {
                    to_phase(d, Phase::Trailer)
                } else {
                    to_phase(d, Phase::ChunkData(n))
                },
            }
        },
        Phase::ChunkEnd => if line.len() == 0 {
            fail(d, ErrorView::UnexpectedEof)
        } else {
            to_phase(d, Phase::ChunkSize)
        },
        Phase::Trailer => if line.len() == 0 || line == crlf() {
            to_phase(d, Phase::Done)
        } else {
            d
        },
        _ => d,
    }
}

/// The state after reading `data` where a fixed number of bytes was due.
pub open spec fn step_bytes(d: DecoderView, data: Seq<u8>) -> DecoderView {
    match d.phase {
        Phase::FixedBody(n) => if data.len() == n {
            DecoderView { phase: Phase::Done, body: d.body + data, ..d }
        } else {
            fail(d, ErrorView::UnexpectedEof)
        },
        Phase::ChunkData(n) => if data.len() == n {
            DecoderView { phase: Phase::ChunkEnd, body: d.body + data, ..d }
        } else {
            fail(d, ErrorView::UnexpectedEof)
        },
        _ => d,
    }
}

/// The decoder run over the bytes `input` of a stream until it finishes or
/// the bytes run out.
pub open spec fn run(d: DecoderView, input: Seq<u8>) -> DecoderView
    decreases input.len(),
{
    match action_of(d.phase) {
        Action::Finished => d,
        Action::ReadLine => {
            let e = line_end(input, 0);
            if e <= 0 || e > input.len() {
                step_line(d, Seq::empty())
            } else {
                run(step_line(d, input.subrange(0, e)), input.subrange(e, input.len() as int))
            }
        },
        Action::ReadExact(n) => if input.len() < n {
            step_bytes(d, input)
        } else if n == 0 {
            step_bytes(d, Seq::empty())
        } else {
            run(step_bytes(d, input.subrange(0, n as int)), input.subrange(n as int, input.len() as int))
        },
    }
}

/// The response a finished decoder holds, or its error.
pub open spec fn outcome(d: DecoderView) -> Result<ResponseView, ErrorView> {
    match d.phase {
        Phase::Done => Ok(ResponseView { status: d.status, header: d.header, body: Some(d.body) }),
        Phase::NoBody => Ok(ResponseView { status: d.status, header: d.header, body: None }),
        Phase::Failed => match d.error {
            Some(e) => Err(e),
            None => Err(ErrorView::UnexpectedEof),
        },
        _ => Err(ErrorView::UnexpectedEof),
    }
}

/// The result of decoding a response from the bytes of a stream.
pub open spec fn decode(input: Seq<u8>) -> Result<ResponseView, ErrorView> {
    outcome(run(initial(), input))
}

// ---------------------------------------------------------------------
// Executable grammar.

proof fn lemma_line_end_bounds(s: Seq<u8>, i: int)
    requires
        0 <= i < s.len(),
    ensures
        i < line_end(s, i) <= s.len(),
    decreases s.len() - i,
{
    if s[i] != 10 {
        if i + 1 < s.len() {
            lemma_line_end_bounds(s, i + 1);
        } else {
            assert(line_end(s, i + 1) == s.len());
        }
    }
}

fn find_line_end(s: &[u8], start: usize) -> (r: usize)
    requires
        start <= s@.len(),
    ensures
        r == line_end(s@, start as int),
        start < s@.len() ==> start < r <= s@.len(),
        start == s@.len() ==> r == start,
{
    proof {
        if start < s@.len() {
            lemma_line_end_bounds(s@, start as int);
        }
    }
    let mut i = start;
    while i < s.len() && s[i] != 10
        invariant
            start <= i <= s@.len(),
            line_end(s@, start as int) == line_end(s@, i as int),
        decreases s@.len() - i,
    {
        i = i + 1;
    }
    if i < s.len() {
        i + 1
    } else {
        i
    }
}

fn skip_spaces_from(s: &[u8], start: usize) -> (r: usize)
    requires
        start <= s@.len(),
    ensures
        r == skip_spaces(s@, start as int),
        start <= r <= s@.len(),
{
    let mut i = start;
    while i < s.len() && (s[i] == 32 || (9 <= s[i] && s[i] <= 13))
        invariant
            start <= i <= s@.len(),
            skip_spaces(s@, start as int) == skip_spaces(s@, i as int),
        decreases s@.len() - i,
    {
        i = i + 1;
    }
    i
}

fn skip_token_from(s: &[u8], start: usize) -> (r: usize)
    requires
        start <= s@.len(),
    ensures
        r == skip_token(s@, start as int),
        start <= r <= s@.len(),
{
    let mut i = start;
    while i < s.len() && !(s[i] == 32 || (9 <= s[i] && s[i] <= 13))
        invariant
            start <= i <= s@.len(),
            skip_token(s@, start as int) == skip_token(s@, i as int),
        decreases s@.len() - i,
    {
        i = i + 1;
    }
    i
}

/// The status code of a status line.
pub fn parse_status(line: &[u8]) -> (r: Result<u32, HttpError>)
    ensures
        match r {
            Ok(s) => status_of(line@) == Ok::<u32, ErrorView>(s),
            Err(e) => status_of(line@) == Err::<u32, ErrorView>(e@),
        },
{
    if utf8_string(slice_to_vec(line)).is_none() {
        return Err(HttpError::InvalidEncoding(slice_to_vec(line)));
    }
    let a = skip_spaces_from(line, 0);
    let b = skip_token_from(line, a);
    let c = skip_spaces_from(line, b);
    let d = skip_token_from(line, c);
    if c == d {
        return Err(HttpError::MissingStatus);
    }
    let token = slice_subrange(line, c, d);
    match parse_digits(token, 10) {
        Some(n) => {
            if n <= 4294967295usize {
                Ok(n as u32)
            } else {
                Err(HttpError::InvalidStatus(slice_to_vec(line)))
            }
        },
        None => Err(HttpError::InvalidStatus(slice_to_vec(line))),
    }
}

/// Splits a header line into its name and value bytes.
pub fn split_header(line: &[u8]) -> (r: Option<(Vec<u8>, Vec<u8>)>)
    ensures
        match r {
            Some((k, v)) => header_parts(line@) == Some((k@, v@)),
            None => header_parts(line@) is None,
        },
{
    let mut i: usize = 0;
    while i < line.len() && line[i] != 58
        invariant
            i <= line@.len(),
            colon_from(line@, 0) == colon_from(line@, i as int),
        decreases line@.len() - i,
    {
        i = i + 1;
    }
    if i < line.len() {
        let name = slice_subrange(line, 0, i);
        let (a, b) = trim_bounds(name);
        let k = slice_to_vec(slice_subrange(name, a, b));
        let value = slice_subrange(line, i + 1, line.len());
        let (c, d) = trim_bounds(value);
        let v = slice_to_vec(slice_subrange(value, c, d));
        Some((k, v))
    } else {
        None
    }
}

fn is_crlf(line: &[u8]) -> (r: bool)
    ensures
        r == (line@ == crlf()),
{
    if line.len() == 2 && line[0] == 13 && line[1] == 10 {
        assert(line@ =~= crlf());
        true
    } else {
        false
    }
}

/// The value of the field `name`, which must already be lower-case.
fn field<'a>(h: &'a HttpHeader, name: &str) -> (r: Option<&'a String>)
    requires
        h.wf(),
        ascii_lower(name@) == name@,
    ensures
        match r {
            Some(v) => lookup(h@, name@) == Some(v@),
            None => lookup(h@, name@) is None,
        },
{
    h.get(name)
}

fn same_text(a: &String, b: &str) -> (r: bool)
    ensures
        r == (a@ == b@),
{
    let c = compare_bytes(a.as_str().as_bytes(), b.as_bytes());
    proof {
        encode_utf8_decode_utf8(a@);
        encode_utf8_decode_utf8(b@);
    }
    c == 0
}

/// Decodes a response from the bytes of a stream, one step at a time: ask
/// [`ResponseDecoder::next_action`] what to read and hand it over with
/// [`ResponseDecoder::feed_line`] or [`ResponseDecoder::feed_bytes`].
pub struct ResponseDecoder {
    phase: Phase,
    status: u32,
    header: HttpHeader,
    body: Vec<u8>,
    error: Option<HttpError>,
}

impl View for ResponseDecoder {
    type V = DecoderView;

    closed spec fn view(&self) -> DecoderView {
        DecoderView {
            phase: self.phase,
            status: self.status,
            header: self.header@,
            body: self.body@,
            error: match self.error {
                Some(e) => Some(e@),
                None => None,
            },
        }
    }
}

impl ResponseDecoder {
    /// Well-formed: the header fields gathered so far are sorted by name.
    pub closed spec fn wf(&self) -> bool {
        self.header.wf()
    }

    /// A decoder waiting for the status line.
    pub fn new() -> (r: Self)
        ensures
            r@ == initial(),
            r.wf(),
    {
        let r = ResponseDecoder {
            phase: Phase::StatusLine,
            status: 0,
            header: HttpHeader::new(),
            body: Vec::new(),
            error: None,
        };
        assert(r.body@ =~= Seq::<u8>::empty());
        r
    }

    /// What the decoder needs next.
    pub fn next_action(&self) -> (r: Action)
        ensures
            r == action_of(self@.phase),
    {
        match self.phase {
            Phase::StatusLine | Phase::Headers | Phase::ChunkSize | Phase::ChunkEnd
            | Phase::Trailer => Action::ReadLine,
            Phase::FixedBody(n) | Phase::ChunkData(n) => Action::ReadExact(n),
            _ => Action::Finished,
        }
    }

    fn set_failed(&mut self, e: HttpError)
        requires
            old(self).wf(),
        ensures
            final(self).wf(),
            final(self)@ == fail(old(self)@, e@),
    {
        self.phase = Phase::Failed;
        self.error = Some(e);
    }

    fn end_of_head(&mut self)
        requires
            old(self).wf(),
        ensures
            final(self).wf(),
            final(self)@ == after_head(old(self)@),
    {
        if self.status == 204 || self.status == 304 {
            self.phase = Phase::NoBody;
            return;
        }
        proof {
            reveal_strlit("transfer-encoding");
            reveal_strlit("content-length");
            assert(ascii_lower("transfer-encoding"@) =~= "transfer-encoding"@);
            assert(ascii_lower("content-length"@) =~= "content-length"@);
        }
        let chunked = match field(&self.header, "transfer-encoding") {
            Some(v) => same_text(v, "chunked"),
            None => false,
        };
        if chunked {
            self.phase = Phase::ChunkSize;
            return;
        }
        let length = match field(&self.header, "content-length") {
            Some(v) => {
                let digits = v.as_str().as_bytes();
                match parse_digits(digits, 10) {
                    Some(n) => Ok(n),
                    None => Err(slice_to_vec(digits)),
                }
            },
            None => {
                self.set_failed(HttpError::MissingFraming);
                return;
            },
        };
        match length {
            Ok(n) => {
                self.phase = Phase::FixedBody(n);
            },
            Err(v) => {
                self.set_failed(HttpError::InvalidContentLength(v));
            },
        }
    }

    fn header_line(&mut self, line: &[u8])
        requires
            old(self).wf(),
        ensures
            final(self).wf(),
            final(self)@ == after_header_line(old(self)@, line@),
    {
        match split_header(line) {
            None => self.set_failed(HttpError::InvalidHeader(slice_to_vec(line))),
            Some((k, v)) => {
                let key = utf8_string(k);
                let value = utf8_string(v);
                match (key, value) {
                    (Some(key), Some(value)) => {
                        self.header.add(key.as_str(), value.as_str());
                    },
                    _ => self.set_failed(HttpError::InvalidEncoding(slice_to_vec(line))),
                }
            },
        }
    }

    /// Hands over a line read from the stream (empty once it has ended).
    pub fn feed_line(&mut self, line: &[u8])
        requires
            old(self).wf(),
        ensures
            final(self).wf(),
            final(self)@ == step_line(old(self)@, line@),
    {
        match self.phase {
            Phase::StatusLine => match parse_status(line) {
                Ok(s) => {
                    self.status = s;
                    self.phase = Phase::Headers;
                },
                Err(e) => self.set_failed(e),
            },
            Phase::Headers => {
                if line.len() == 0 {
                    self.set_failed(HttpError::UnexpectedEof);
                } else if is_crlf(line) {
                    self.end_of_head();
                } else {
                    self.header_line(line);
                }
            },
            Phase::ChunkSize => {
                if line.len() == 0 {
                    self.set_failed(HttpError::UnexpectedEof);
                } else {
                    let (a, b) = trim_bounds(line);
                    match parse_digits(slice_subrange(line, a, b), 16) {
                        None => self.set_failed(HttpError::InvalidChunkSize(slice_to_vec(line))),
                        Some(n) => {
                            if n == 0 {
                                self.phase = Phase::Trailer;
                            } else {
                                self.phase = Phase::ChunkData(n);
                            }
                        },
                    }
                }
            },
            Phase::ChunkEnd => {
                if line.len() == 0 {
                    self.set_failed(HttpError::UnexpectedEof);
                } else {
                    self.phase = Phase::ChunkSize;
                }
            },
            Phase::Trailer => {
                if line.len() == 0 || is_crlf(line) {
                    self.phase = Phase::Done;
                }
            },
            _ => {},
        }
    }

    /// Hands over the bytes read where [`Action::ReadExact`] was asked for.
    pub fn feed_bytes(&mut self, data: &[u8])
        requires
            old(self).wf(),
        ensures
            final(self).wf(),
            final(self)@ == step_bytes(old(self)@, data@),
    {
        match self.phase {
            Phase::FixedBody(n) => {
                if data.len() == n {
                    let mut d = slice_to_vec(data);
                    self.body.append(&mut d);
                    self.phase = Phase::Done;
                } else {
                    self.set_failed(HttpError::UnexpectedEof);
                }
            },
            Phase::ChunkData(n) => {
                if data.len() == n {
                    let mut d = slice_to_vec(data);
                    self.body.append(&mut d);
                    self.phase = Phase::ChunkEnd;
                } else {
                    self.set_failed(HttpError::UnexpectedEof);
                }
            },
            _ => {},
        }
    }

    /// The decoded response or the error, once the decoder has finished.
    pub fn finish(self) -> (r: Result<Response, HttpError>)
        requires
            self.wf(),
        ensures
            match r {
                Ok(resp) => outcome(self@) == Ok::<ResponseView, ErrorView>(resp@),
                Err(e) => outcome(self@) == Err::<ResponseView, ErrorView>(e@),
            },
    {
        match self.phase {
            Phase::Done => Ok(Response { status: self.status, header: self.header, body: Some(self.body) }),
            Phase::NoBody => Ok(Response { status: self.status, header: self.header, body: None }),
            Phase::Failed => match self.error {
                Some(e) => Err(e),
                None => Err(HttpError::UnexpectedEof),
            },
            _ => Err(HttpError::UnexpectedEof),
        }
    }
}

/// Decodes the response at the start of `input`, the bytes a stream would
/// deliver; bytes after the response are left alone.
pub fn decode_response(input: &[u8]) -> (r: Result<Response, HttpError>)
    ensures
        match r {
            Ok(resp) => decode(input@) == Ok::<ResponseView, ErrorView>(resp@),
            Err(e) => decode(input@) == Err::<ResponseView, ErrorView>(e@),
        },
{
    let mut dec = ResponseDecoder::new();
    let mut pos: usize = 0;
    assert(input@.subrange(0, input@.len() as int) =~= input@);
    loop
        invariant_except_break
            decode(input@) == outcome(run(dec@, input@.subrange(pos as int, input@.len() as int))),
        invariant
            pos <= input@.len(),
            dec.wf(),
        ensures
            dec.wf(),
            decode(input@) == outcome(dec@),
        decreases input@.len() - pos,
    {
        let ghost rest = input@.subrange(pos as int, input@.len() as int);
        match dec.next_action() {
            Action::Finished => break,
            Action::ReadLine => {
                let e = find_line_end(input, pos);
                proof {
                    lemma_line_end_shift(input@, pos as int, pos as int);
                }
                if e == pos {
                    assert(rest.len() == 0);
                    dec.feed_line(slice_subrange(input, pos, pos));
                    break;
                }
                proof {
                    assert(rest.subrange(0, e - pos) =~= input@.subrange(pos as int, e as int));
                    assert(rest.subrange(e - pos, rest.len() as int) =~= input@.subrange(e as int, input@.len() as int));
                }
                let ghost before = dec@;
                dec.feed_line(slice_subrange(input, pos, e));
                assert(run(before, rest) == run(dec@, input@.subrange(e as int, input@.len() as int)));
                pos = e;
            },
            Action::ReadExact(n) => {
                if input.len() - pos < n {
                    dec.feed_bytes(slice_subrange(input, pos, input.len()));
                    break;
                } else if n == 0 {
                    dec.feed_bytes(slice_subrange(input, pos, pos));
                    break;
                }
                proof {
                    assert(rest.subrange(0, n as int) =~= input@.subrange(pos as int, pos + n));
                    assert(rest.subrange(n as int, rest.len() as int) =~= input@.subrange(pos + n, input@.len() as int));
                }
                let ghost before = dec@;
                dec.feed_bytes(slice_subrange(input, pos, pos + n));
                assert(run(before, rest) == run(dec@, input@.subrange(pos + n, input@.len() as int)));
                pos = pos + n;
            },
        }
    }
    dec.finish()
}

proof fn lemma_line_end_shift(s: Seq<u8>, p: int, j: int)
    requires
        0 <= p <= j <= s.len(),
    ensures
        line_end(s, j) - p == line_end(s.subrange(p, s.len() as int), j - p),
    decreases s.len() - j,
{
    if j < s.len() && s[j] != 10 {
        lemma_line_end_shift(s, p, j + 1);
    }
}

/// A decoder state agrees with the status on whether a body is read.
pub open spec fn body_follows_status(d: DecoderView) -> bool {
    let silent = d.status == 204 || d.status == 304;
    match d.phase {
        Phase::NoBody => silent,
        Phase::FixedBody(_) | Phase::ChunkSize | Phase::ChunkData(_) | Phase::ChunkEnd
        | Phase::Trailer | Phase::Done => !silent,
        _ => true,
    }
}

proof fn lemma_run_body_rule(d: DecoderView, input: Seq<u8>)
    requires
        body_follows_status(d),
    ensures
        body_follows_status(run(d, input)),
    decreases input.len(),
{
    match action_of(d.phase) {
        Action::Finished => {},
        Action::ReadLine => {
            let e = line_end(input, 0);
            if e <= 0 || e > input.len() {
            } else {
                lemma_run_body_rule(
                    step_line(d, input.subrange(0, e)),
                    input.subrange(e, input.len() as int),
                );
            }
        },
        Action::ReadExact(n) => {
            if input.len() < n || n == 0 {
            } else {
                lemma_run_body_rule(
                    step_bytes(d, input.subrange(0, n as int)),
                    input.subrange(n as int, input.len() as int),
                );
            }
        },
    }
}

/// A decoded response has no body exactly when its status is 204 or 304,
/// whatever length or transfer-encoding fields it carries.
pub proof fn law_no_body_statuses(input: Seq<u8>)
    ensures
        decode(input) matches Ok(r) ==> (r.body is None <==> (r.status == 204 || r.status == 304)),
{
    lemma_run_body_rule(initial(), input);
}

/// A response whose head ends without a transfer encoding or a length,
/// and whose status allows a body, fails with `MissingFraming`.
pub proof fn law_missing_framing(d: DecoderView)
    requires
        d.phase == Phase::Headers,
        d.status != 204 && d.status != 304,
        lookup(d.header, "transfer-encoding"@) is None,
        lookup(d.header, "content-length"@) is None,
    ensures
        step_line(d, crlf()) == fail(d, ErrorView::MissingFraming),
{
}

/// A chunk-size line that is not a hexadecimal number once trimmed fails
/// with `InvalidChunkSize`, carrying the line as read.
pub proof fn law_bad_chunk_size(d: DecoderView, line: Seq<u8>)
    requires
        d.phase == Phase::ChunkSize,
        line.len() > 0,
        parse_number(trim(line), 16) is None,
    ensures
        step_line(d, line) == fail(d, ErrorView::InvalidChunkSize(line)),
{
}

/// A line as read from a stream: it ends with its only LF.
pub open spec fn is_line(l: Seq<u8>) -> bool {
    &&& l.len() > 0
    &&& l.last() == 10
    &&& forall|i: int| 0 <= i < l.len() - 1 ==> #[trigger] l[i] != 10
}

proof fn lemma_line_end_of_line(l: Seq<u8>, rest: Seq<u8>, i: int)
    requires
        is_line(l),
        0 <= i < l.len(),
    ensures
        line_end(l + rest, i) == l.len(),
    decreases l.len() - i,
{
    let s = l + rest;
    assert(s[i] == l[i]);
    if i < l.len() - 1 {
        lemma_line_end_of_line(l, rest, i + 1);
    }
}

/// Reading a line off `l + rest` takes `l` and leaves `rest`.
proof fn lemma_read_line(d: DecoderView, l: Seq<u8>, rest: Seq<u8>)
    requires
        is_line(l),
        action_of(d.phase) == Action::ReadLine,
    ensures
        run(d, l + rest) == run(step_line(d, l), rest),
{
    lemma_line_end_of_line(l, rest, 0);
    assert((l + rest).subrange(0, l.len() as int) =~= l);
    assert((l + rest).subrange(l.len() as int, (l + rest).len() as int) =~= rest);
}

/// Reading `n > 0` bytes off `data + rest`, where `data` has `n` bytes.
proof fn lemma_read_exact(d: DecoderView, data: Seq<u8>, rest: Seq<u8>)
    requires
        0 < data.len() <= usize::MAX,
        action_of(d.phase) == Action::ReadExact(data.len() as usize),
    ensures
        run(d, data + rest) == run(step_bytes(d, data), rest),
{
    assert((data + rest).subrange(0, data.len() as int) =~= data);
    assert((data + rest).subrange(data.len() as int, (data + rest).len() as int) =~= rest);
}

/// Once the head of a 204 or 304 response has been read, the blank line
/// ends the response with no body, whatever length or transfer-encoding
/// fields it carries and whatever follows.
pub proof fn law_no_body_head(d: DecoderView, rest: Seq<u8>)
    requires
        d.phase == Phase::Headers,
        d.status == 204 || d.status == 304,
    ensures
        outcome(run(d, crlf() + rest)) == Ok::<ResponseView, ErrorView>(
            ResponseView { status: d.status, header: d.header, body: None },
        ),
{
    lemma_read_line(d, crlf(), rest);
}

/// With a `Content-Length` of `n` (and no chunked encoding), the `n` bytes
/// after the blank line are the body; what follows them is not read.
pub proof fn law_content_length_body(d: DecoderView, data: Seq<u8>, rest: Seq<u8>)
    requires
        d.phase == Phase::Headers,
        d.body.len() == 0,
        data.len() <= usize::MAX,
        framing(d.status, d.header) == Framing::Fixed(data.len() as usize),
    ensures
        outcome(run(d, crlf() + (data + rest))) == Ok::<ResponseView, ErrorView>(
            ResponseView { status: d.status, header: d.header, body: Some(data) },
        ),
{
    lemma_read_line(d, crlf(), data + rest);
    let d1 = step_line(d, crlf());
    assert(d1.phase == Phase::FixedBody(data.len() as usize));
    if data.len() > 0 {
        lemma_read_exact(d1, data, rest);
        assert(d.body + data =~= data);
    } else {
        assert(data =~= Seq::<u8>::empty());
        assert(d.body + Seq::<u8>::empty() =~= data);
    }
}

/// Chunks in the chunked encoding: each size line, its data and CRLF.
pub open spec fn chunk_stream(lines: Seq<Seq<u8>>, chunks: Seq<Seq<u8>>) -> Seq<u8>
    decreases lines.len(),
{
    if lines.len() == 0 || chunks.len() == 0 {
        Seq::empty()
    } else {
        lines[0] + chunks[0] + crlf() + chunk_stream(lines.drop_first(), chunks.drop_first())
    }
}

/// The chunks' data joined in order.
pub open spec fn concat_chunks(chunks: Seq<Seq<u8>>) -> Seq<u8>
    decreases chunks.len(),
{
    if chunks.len() == 0 {
        Seq::empty()
    } else {
        chunks[0] + concat_chunks(chunks.drop_first())
    }
}

/// Size lines that each give the length of their (non-empty) chunk in hex.
pub open spec fn well_sized(lines: Seq<Seq<u8>>, chunks: Seq<Seq<u8>>) -> bool {
    &&& lines.len() == chunks.len()
    &&& forall|i: int|
        0 <= i < lines.len() ==> is_line(#[trigger] lines[i]) && 0 < chunks[i].len() <= usize::MAX
            && parse_number(trim(lines[i]), 16) == Some(chunks[i].len() as usize)
}

proof fn lemma_one_chunk(d: DecoderView, l: Seq<u8>, c: Seq<u8>, tail: Seq<u8>)
    requires
        d.phase == Phase::ChunkSize,
        is_line(l),
        0 < c.len() <= usize::MAX,
        parse_number(trim(l), 16) == Some(c.len() as usize),
    ensures
        run(d, l + (c + (crlf() + tail))) == run(
            DecoderView { phase: Phase::ChunkSize, body: d.body + c, ..d },
            tail,
        ),
{
    lemma_read_line(d, l, c + (crlf() + tail));
    let d1 = step_line(d, l);
    assert(d1.phase == Phase::ChunkData(c.len() as usize));
    lemma_read_exact(d1, c, crlf() + tail);
    let d2 = step_bytes(d1, c);
    assert(d2.phase == Phase::ChunkEnd);
    lemma_read_line(d2, crlf(), tail);
}

/// A chunked body decodes to its chunks joined, once the zero-size line and
/// the blank line after it are read; what follows them is not read.
pub proof fn law_chunked_body(
    d: DecoderView,
    lines: Seq<Seq<u8>>,
    chunks: Seq<Seq<u8>>,
    last: Seq<u8>,
    rest: Seq<u8>,
)
    requires
        d.phase == Phase::ChunkSize,
        well_sized(lines, chunks),
        is_line(last),
        parse_number(trim(last), 16) == Some(0usize),
    ensures
        run(d, chunk_stream(lines, chunks) + (last + (crlf() + rest))) == (DecoderView {
            phase: Phase::Done,
            body: d.body + concat_chunks(chunks),
            ..d
        }),
    decreases lines.len(),
{
    let tail = last + (crlf() + rest);
    if lines.len() == 0 {
        assert(chunk_stream(lines, chunks) + tail =~= tail);
        lemma_read_line(d, last, crlf() + rest);
        let d1 = step_line(d, last);
        assert(d1.phase == Phase::Trailer);
        lemma_read_line(d1, crlf(), rest);
        assert(d.body + concat_chunks(chunks) =~= d.body);
    } else {
        let l = lines[0];
        let c = chunks[0];
        let more = chunk_stream(lines.drop_first(), chunks.drop_first());
        assert(is_line(l) && 0 < c.len() <= usize::MAX && parse_number(trim(l), 16) == Some(
            c.len() as usize,
        ));
        assert(chunk_stream(lines, chunks) + tail =~= l + (c + (crlf() + (more + tail))));
        lemma_one_chunk(d, l, c, more + tail);
        let d3 = DecoderView { phase: Phase::ChunkSize, body: d.body + c, ..d };
        let ls = lines.drop_first();
        let cs = chunks.drop_first();
        assert(well_sized(ls, cs)) by {
            assert forall|i: int| 0 <= i < ls.len() implies is_line(#[trigger] ls[i])
                && 0 < cs[i].len() <= usize::MAX && parse_number(trim(ls[i]), 16) == Some(cs[i].len() as usize) by {
                assert(ls[i] == lines[i + 1] && cs[i] == chunks[i + 1]);
            }
        }
        law_chunked_body(d3, ls, cs, last, rest);
        assert(d.body + c + concat_chunks(cs) =~= d.body + concat_chunks(chunks));
    }
}

/// Lines joined in order.
pub open spec fn concat_lines(lines: Seq<Seq<u8>>) -> Seq<u8>
    decreases lines.len(),
{
    if lines.len() == 0 {
        Seq::empty()
    } else {
        lines[0] + concat_lines(lines.drop_first())
    }
}

/// A header line the decoder accepts: one line, not blank, with a `:` and
/// a UTF-8 name and value.
pub open spec fn good_header_line(l: Seq<u8>) -> bool {
    &&& is_line(l)
    &&& l != crlf()
    &&& header_parts(l) matches Some((k, v)) && valid_utf8(k) && valid_utf8(v)
}

/// The state after reading the given header lines.
pub open spec fn after_header_lines(d: DecoderView, lines: Seq<Seq<u8>>) -> DecoderView
    decreases lines.len(),
{
    if lines.len() == 0 {
        d
    } else {
        after_header_lines(after_header_line(d, lines[0]), lines.drop_first())
    }
}

proof fn lemma_header_lines(d: DecoderView, lines: Seq<Seq<u8>>, tail: Seq<u8>)
    requires
        d.phase == Phase::Headers,
        forall|i: int| 0 <= i < lines.len() ==> good_header_line(#[trigger] lines[i]),
    ensures
        run(d, concat_lines(lines) + tail) == run(after_header_lines(d, lines), tail),
        after_header_lines(d, lines).phase == Phase::Headers,
        after_header_lines(d, lines).status == d.status,
    decreases lines.len(),
{
    if lines.len() == 0 {
        assert(concat_lines(lines) + tail =~= tail);
    } else {
        let l = lines[0];
        assert(good_header_line(l));
        let more = lines.drop_first();
        assert(concat_lines(lines) + tail =~= l + (concat_lines(more) + tail));
        lemma_read_line(d, l, concat_lines(more) + tail);
        let d1 = after_header_line(d, l);
        assert(step_line(d, l) == d1);
        assert forall|i: int| 0 <= i < more.len() implies good_header_line(#[trigger] more[i]) by {
            assert(more[i] == lines[i + 1]);
        }
        lemma_header_lines(d1, more, tail);
    }
}

/// A response whose status line gives 204 or 304, followed by any header
/// lines the decoder accepts and the blank line, decodes successfully with
/// no body, whatever length or transfer-encoding fields it carries and
/// whatever bytes follow.
pub proof fn law_no_body_response(status_line: Seq<u8>, lines: Seq<Seq<u8>>, rest: Seq<u8>)
    requires
        is_line(status_line),
        status_of(status_line) == Ok::<u32, ErrorView>(204u32) || status_of(status_line) == Ok::<
            u32,
            ErrorView,
        >(304u32),
        forall|i: int| 0 <= i < lines.len() ==> good_header_line(#[trigger] lines[i]),
    ensures
        decode(status_line + (concat_lines(lines) + (crlf() + rest))) matches Ok(r) && r.body is None
            && Ok::<u32, ErrorView>(r.status) == status_of(status_line),
{
    let d0 = initial();
    lemma_read_line(d0, status_line, concat_lines(lines) + (crlf() + rest));
    let d1 = step_line(d0, status_line);
    assert(d1.phase == Phase::Headers);
    lemma_header_lines(d1, lines, crlf() + rest);
    let d2 = after_header_lines(d1, lines);
    law_no_body_head(d2, rest);
}

} // verus!
