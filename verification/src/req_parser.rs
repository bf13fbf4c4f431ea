//! Reading a request.
//!
//! A head is read in two steps. The parser takes the head line by line and
//! keeps the first line and the headers as bytes, folding continuation lines
//! into the header before them. Once the empty line has come, the typed head is
//! made from what was kept.

pub mod utils;

pub use utils::decode_req_body;
pub use utils::FloatReading;

use crate::http_header::headers_get;
use crate::http_header::header_line;
use crate::http_header::headers_with;
use crate::http_header::value::HeaderValueView;
use crate::http_header::value::SimpleValueView;
use crate::text::lemma_bytes_of_chars;
use crate::text::lemma_decimal_digits;
use crate::text::lemma_number_round_trip;
use crate::text::lower_byte;
use crate::text::lower_char;
use crate::text::lower_chars;
use crate::http_header::HeaderMap;
use crate::http_header::HeaderNameView;
use crate::text::bytes_of;
use crate::http_header::HeaderValue;
use crate::http_header::ParsedHeaderValue;
use crate::http_header::SimpleHeaderValue;
use crate::http_header::value::ParsedView;
use crate::http_header::HeadersView;
use crate::http_header::ReqHeader;
use crate::http_header::ReqOnlyHeader;
use crate::http_req::ReqHead;
use crate::http_req::ReqHeadView;
use crate::text::ascii_prefix_len;
use crate::text::chars_of;
use crate::text::copy_range;
use crate::text::bytes_eq;
use crate::text::find_byte;
use crate::text::index_of;
use crate::text::is_ascii_bytes;
use crate::text::is_item;
use crate::text::is_space;
use crate::text::lemma_absent_each;
use crate::text::lemma_ascii_each;
use crate::text::lemma_trim;
use crate::text::lemma_trim_start;
use crate::text::lemma_trim_identity;
use crate::text::lemma_trim_start_identity;
use crate::text::is_non_ascii;
use crate::text::lemma_position;
use crate::text::lemma_position_is;
use crate::text::lower;
use crate::text::lower_bytes;
use crate::text::position;
use crate::text::split;
use crate::text::trim;
use crate::text::trim_bytes;
use crate::text::trim_start;
use crate::text::trim_start_bytes;
use utils::chosen_encoding;
use utils::first_line_of;
use utils::header_of;
use utils::known_header;
use utils::quality_texts_of;
use utils::readings_agree;
use utils::readings_view;
use utils::texts;
use utils::ReadingsView;
use utils::ValueForm;
use vstd::prelude::*;
use vstd::string::StringExecFns;

verus! {

/// What is wrong with the first line of a request.
#[derive(Debug, Clone, Copy, PartialEq, Eq, Structural)]
pub enum FirstLineParsingError {
    EmptyLine,
    InvalidFieldCount,
    InvalidVerb,
    InvalidTargetQuery,
    InvalidTargetEncoding,
}

/// What is wrong with a header.
#[derive(Debug, Clone, Copy, PartialEq, Eq, Structural)]
pub enum HeaderParsingError {
    NoColon,
    SpaceBeforeColon,
    NoComponent,
    InvalidMime,
    InvalidFloat,
    InvalidBasicCredentials,
    NumberParsing,
}

/// What is wrong with a request.
#[derive(Debug, Clone, Copy, PartialEq, Eq, Structural)]
pub enum ReqHeadParsingError {
    /// A byte of the head is outside ASCII; the index of the first such byte
    /// in its line.
    Ascii(usize),
    FirstLine(FirstLineParsingError),
    Header(HeaderParsingError),
    NoSupportedEncoding,
    BodyDecoding,
}

/// An encoding that a body may be sent in.
#[derive(Debug, Clone, Copy, PartialEq, Eq, Structural)]
pub enum SupportedEncoding {
    Gzip,
    Deflate,
    Zstd,
    Br,
}

impl SupportedEncoding {
    /// The name of the encoding on the wire.
    pub open spec fn wire(self) -> Seq<char> {
        match self {
            Self::Gzip => "gzip"@,
            Self::Deflate => "deflate"@,
            Self::Zstd => "zstd"@,
            Self::Br => "br"@,
        }
    }

    /// The name of the encoding on the wire.
    pub fn to_string(&self) -> (s: String)
        ensures
            s@ == self.wire(),
    {
        match self {
            Self::Gzip => String::from_str("gzip"),
            Self::Deflate => String::from_str("deflate"),
            Self::Zstd => String::from_str("zstd"),
            Self::Br => String::from_str("br"),
        }
    }
}


/// Where the parser stands in a head.
#[derive(Debug, Clone, Copy, PartialEq, Eq, Structural)]
pub enum ReqHeadParserState {
    /// The first line is awaited.
    RequestLine,
    /// The first line has come; headers or the empty line are awaited.
    Headers,
    /// The empty line has come.
    Done,
}

/// Raw headers in order, as bytes: the name in lower case, the value, and the
/// name as it was spelled when it first came.
pub type RawHeadersView = Seq<(Seq<u8>, Seq<u8>, Seq<u8>)>;

/// What the parser has kept of a head, as bytes.
pub struct RawReqHeadView {
    pub request_line: Seq<u8>,
    pub headers: RawHeadersView,
    pub last_header_name: Option<Seq<u8>>,
}

/// The predicate "has the name `name`".
pub open spec fn is_raw_named(name: Seq<u8>) -> spec_fn((Seq<u8>, Seq<u8>, Seq<u8>)) -> bool {
    |e: (Seq<u8>, Seq<u8>, Seq<u8>)| e.0 == name
}

/// Whether no name occurs twice.
pub open spec fn raw_distinct(s: RawHeadersView) -> bool {
    forall|i: int, j: int| 0 <= i < j < s.len() ==> (#[trigger] s[i]).0 != (#[trigger] s[j]).0
}

/// The raw headers with `text` added to the header `name`: the text is put
/// behind the value that the header has, and the header keeps the spelling
/// that it first came with; a name that is new comes last, with the text as
/// its value and with `spelling`.
pub open spec fn raw_with(
    s: RawHeadersView,
    name: Seq<u8>,
    text: Seq<u8>,
    spelling: Seq<u8>,
) -> RawHeadersView {
    let i = position(s, is_raw_named(name));
    if 0 <= i < s.len() {
        s.update(i, (name, s[i].1 + text, s[i].2))
    } else {
        s.push((name, text, spelling))
    }
}

/// Adding to a header keeps the names distinct.
pub proof fn lemma_raw_with_distinct(
    s: RawHeadersView,
    name: Seq<u8>,
    text: Seq<u8>,
    spelling: Seq<u8>,
)
    requires
        raw_distinct(s),
    ensures
        raw_distinct(raw_with(s, name, text, spelling)),
{
    let i = position(s, is_raw_named(name));
    let r = raw_with(s, name, text, spelling);
    lemma_position(s, is_raw_named(name));
    assert forall|a: int, b: int| 0 <= a < b < r.len() implies (#[trigger] r[a]).0 != (
    #[trigger] r[b]).0 by {
        if 0 <= i < s.len() {
            assert(r[a].0 == s[a].0 && r[b].0 == s[b].0);
        } else if b < s.len() {
            assert(r[a] == s[a] && r[b] == s[b]);
        } else {
            assert(r[a] == s[a]);
            assert(!is_raw_named(name)(s[a]));
        }
    }
}

/// What the parser has kept of a head: the first line, and the headers by
/// their lower-case names, each name once, with the spelling it first came
/// in.
#[derive(Debug)]
pub struct RawReqHead {
    request_line: Vec<u8>,
    headers: Vec<(Vec<u8>, Vec<u8>, Vec<u8>)>,
    last_header_name: Option<Vec<u8>>,
}

impl View for RawReqHead {
    type V = RawReqHeadView;

    closed spec fn view(&self) -> RawReqHeadView {
        RawReqHeadView {
            request_line: self.request_line@,
            headers: Seq::new(
                self.headers@.len(),
                |i: int| (self.headers@[i].0@, self.headers@[i].1@, self.headers@[i].2@),
            ),
            last_header_name: match self.last_header_name {
                Some(name) => Some(name@),
                None => None,
            },
        }
    }
}

impl RawReqHead {
    /// No name occurs twice among the headers.
    #[verifier::type_invariant]
    closed spec fn distinct(&self) -> bool {
        raw_distinct(self@.headers)
    }

    /// Nothing kept.
    pub fn new() -> (r: Self)
        ensures
            r@ == (RawReqHeadView {
                request_line: Seq::<u8>::empty(),
                headers: RawHeadersView::empty(),
                last_header_name: None,
            }),
    {
        let r = Self { request_line: Vec::new(), headers: Vec::new(), last_header_name: None };
        proof {
            assert(r@.headers =~= RawHeadersView::empty());
        }
        r
    }

    /// Keeps `line` as the first line.
    fn set_request_line(&mut self, line: Vec<u8>)
        ensures
            final(self)@ == (RawReqHeadView {
                request_line: line@,
                headers: old(self)@.headers,
                last_header_name: old(self)@.last_header_name,
            }),
    {
        proof {
            use_type_invariant(&*self);
        }
        self.request_line = line;
    }

    /// Adds `text` to the header `name` and remembers the name as the last. A
    /// name that is new is kept with `spelling`.
    fn add(&mut self, name: Vec<u8>, text: &[u8], spelling: &[u8])
        ensures
            final(self)@ == (RawReqHeadView {
                request_line: old(self)@.request_line,
                headers: raw_with(old(self)@.headers, name@, text@, spelling@),
                last_header_name: Some(name@),
            }),
    {
        let ghost s = self@.headers;
        proof {
            use_type_invariant(&*self);
            lemma_raw_with_distinct(s, name@, text@, spelling@);
        }
        let mut headers: Vec<(Vec<u8>, Vec<u8>, Vec<u8>)> = Vec::new();
        core::mem::swap(&mut self.headers, &mut headers);
        let mut i: usize = 0;
        while i < headers.len() && !bytes_eq(headers[i].0.as_slice(), name.as_slice())
            invariant
                i <= headers@.len(),
                s == Seq::new(
                    headers@.len(),
                    |k: int| (headers@[k].0@, headers@[k].1@, headers@[k].2@),
                ),
                forall|k: int| 0 <= k < i ==> (#[trigger] s[k]).0 != name@,
            decreases headers@.len() - i,
        {
            i += 1;
        }
        proof {
            assert forall|k: int| 0 <= k < i implies !is_raw_named(name@)(#[trigger] s[k]) by {}
            lemma_position_is(s, is_raw_named(name@), i as int);
        }
        if i < headers.len() {
            let mut value = copy_range(headers[i].1.as_slice(), 0, headers[i].1.len());
            let mut k: usize = 0;
            proof {
                assert(value@ =~= headers@[i as int].1@ + text@.take(0));
            }
            while k < text.len()
                invariant
                    k <= text@.len(),
                    i < headers@.len(),
                    s == Seq::new(
                    headers@.len(),
                    |k: int| (headers@[k].0@, headers@[k].1@, headers@[k].2@),
                ),
                    i == position(s, is_raw_named(name@)),
                    value@ == headers@[i as int].1@ + text@.take(k as int),
                decreases text@.len() - k,
            {
                value.push(text[k]);
                proof {
                    assert(value@ =~= headers@[i as int].1@ + text@.take(k + 1));
                }
                k += 1;
            }
            proof {
                assert(text@.take(k as int) == text@);
            }
            let key = copy_range(name.as_slice(), 0, name.len());
            let first = copy_range(headers[i].2.as_slice(), 0, headers[i].2.len());
            proof {
                assert(key@ =~= name@);
                assert(first@ =~= headers@[i as int].2@);
                assert(s[i as int].1 == headers@[i as int].1@);
                assert(s[i as int].2 == headers@[i as int].2@);
            }
            headers.set(i, (key, value, first));
        } else {
            let value = copy_range(text, 0, text.len());
            let key = copy_range(name.as_slice(), 0, name.len());
            let first = copy_range(spelling, 0, spelling.len());
            proof {
                assert(key@ =~= name@);
                assert(value@ =~= text@);
                assert(first@ =~= spelling@);
            }
            headers.push((key, value, first));
        }
        proof {
            assert(Seq::new(
                headers@.len(),
                |k: int| (headers@[k].0@, headers@[k].1@, headers@[k].2@),
            ) =~= raw_with(s, name@, text@, spelling@));
        }
        self.headers = headers;
        self.last_header_name = Some(name);
    }
}

/// The parser, as bytes.
pub struct ReqHeadParserView {
    pub state: ReqHeadParserState,
    pub raw: RawReqHeadView,
}

/// A line without the end of the line: one `\r\n` or one `\n` at its end is
/// taken off.
pub open spec fn strip_eol(line: Seq<u8>) -> Seq<u8> {
    if line.len() >= 2 && line[line.len() - 2] == 13 && line[line.len() - 1] == 10 {
        line.take(line.len() - 2)
    } else if line.len() >= 1 && line[line.len() - 1] == 10 {
        line.take(line.len() - 1)
    } else {
        line
    }
}

/// What a line does to a parser that is not done.
///
/// A byte outside ASCII is an error. Otherwise the line is taken without the
/// end of the line. While the first line is awaited, an empty line is an error
/// and any other line is kept as the first line. After that an empty line
/// ends the head. A line with a colon is a header: a space just before the
/// colon is an error; the name is what stands before the colon, trimmed, and
/// what stands after the colon, without leading whitespace, is added to the
/// header of that name. Names are the same whatever their case: the headers
/// are kept by their names in lower case, each with the spelling in which the
/// name first came. A line without a colon continues the header that came
/// last, and is an error where none came.
pub open spec fn step(p: ReqHeadParserView, bytes: Seq<u8>) -> Result<
    ReqHeadParserView,
    ReqHeadParsingError,
> {
    let bad = position(bytes, is_non_ascii());
    let line = strip_eol(bytes);
    if 0 <= bad < bytes.len() {
        Err(ReqHeadParsingError::Ascii(bad as usize))
    } else {
        match p.state {
            ReqHeadParserState::RequestLine => if line.len() == 0 {
                Err(ReqHeadParsingError::FirstLine(FirstLineParsingError::EmptyLine))
            } else {
                Ok(
                    ReqHeadParserView {
                        state: ReqHeadParserState::Headers,
                        raw: RawReqHeadView {
                            request_line: line,
                            headers: p.raw.headers,
                            last_header_name: p.raw.last_header_name,
                        },
                    },
                )
            },
            ReqHeadParserState::Headers => if line.len() == 0 {
                Ok(ReqHeadParserView { state: ReqHeadParserState::Done, raw: p.raw })
            } else {
                let colon = index_of(line, 58);
                if 0 <= colon < line.len() {
                    if colon > 0 && line[colon - 1] == 32 {
                        Err(ReqHeadParsingError::Header(HeaderParsingError::SpaceBeforeColon))
                    } else {
                        let spelling = trim(line.take(colon));
                        let name = lower(spelling);
                        Ok(
                            ReqHeadParserView {
                                state: ReqHeadParserState::Headers,
                                raw: RawReqHeadView {
                                    request_line: p.raw.request_line,
                                    headers: raw_with(
                                        p.raw.headers,
                                        name,
                                        trim_start(line.skip(colon + 1)),
                                        spelling,
                                    ),
                                    last_header_name: Some(name),
                                },
                            },
                        )
                    }
                } else {
                    match p.raw.last_header_name {
                        Some(name) => Ok(
                            ReqHeadParserView {
                                state: ReqHeadParserState::Headers,
                                raw: RawReqHeadView {
                                    request_line: p.raw.request_line,
                                    headers: raw_with(p.raw.headers, name, line, name),
                                    last_header_name: Some(name),
                                },
                            },
                        ),
                        None => Err(ReqHeadParsingError::Header(HeaderParsingError::NoColon)),
                    }
                }
            },
            ReqHeadParserState::Done => Ok(p),
        }
    }
}

/// The typed headers that raw headers denote: each is read in turn and set,
/// and the first that is in error decides.
pub open spec fn typed_headers(raw: RawHeadersView, readings: ReadingsView) -> Result<
    HeadersView,
    ReqHeadParsingError,
>
    decreases raw.len(),
{
    if raw.len() == 0 {
        Ok(HeadersView::empty())
    } else {
        match typed_headers(raw.drop_last(), readings) {
            Err(e) => Err(e),
            Ok(headers) => match header_of(raw.last().2, raw.last().1, readings) {
                Err(e) => Err(e),
                Ok(h) => Ok(headers_with(headers, h.0, h.1)),
            },
        }
    }
}

/// An error among the first raw headers is the error of all of them.
proof fn lemma_typed_error(raw: RawHeadersView, readings: ReadingsView, i: int)
    requires
        0 <= i <= raw.len(),
        typed_headers(raw.take(i), readings) is Err,
    ensures
        typed_headers(raw, readings) == typed_headers(raw.take(i), readings),
    decreases raw.len() - i,
{
    if i < raw.len() {
        assert(raw.take(i + 1).drop_last() == raw.take(i));
        lemma_typed_error(raw, readings, i + 1);
    } else {
        assert(raw.take(i) == raw);
    }
}

/// Whether a list is what an empty value reads as: one atom that is the
/// empty text, without members.
pub open spec fn blank_list(list: ParsedView) -> bool {
    list.len() == 1 && list[0].0 == SimpleValueView::Text(Seq::<char>::empty()) && list[0].1.len()
        == 0
}

/// The encoding that the headers choose: where `Accept-Encoding` is a list
/// that an empty value does not read as, what the list chooses; nothing where
/// the header is missing or empty.
pub open spec fn head_encoding(headers: HeadersView) -> Result<
    Option<SupportedEncoding>,
    ReqHeadParsingError,
> {
    match headers_get(headers, HeaderNameView::ReqOnly(ReqOnlyHeader::AcceptEncoding)) {
        Some(HeaderValueView::Parsed(list)) => if blank_list(list) {
            Ok(None)
        } else {
            chosen_encoding(list)
        },
        _ => Ok(None),
    }
}

/// Tells whether a list is what an empty value reads as.
fn is_blank_list(list: &ParsedHeaderValue) -> (r: bool)
    ensures
        r == blank_list(list@),
{
    if list.0.len() != 1 {
        return false;
    }
    proof {
        assert(list@[0] == (list.0@[0].0@, list.0@[0].1@));
    }
    match &list.0[0].0 {
        SimpleHeaderValue::String(text) => {
            let r = text.as_str().is_empty() && list.0[0].1.is_empty();
            proof {
                if text@.len() == 0 {
                    assert(text@ =~= Seq::<char>::empty());
                }
            }
            r
        },
        _ => false,
    }
}

/// The credentials that the headers give: those of `Authorization`.
pub open spec fn head_credentials(headers: HeadersView) -> Option<(Seq<char>, Seq<char>)> {
    match headers_get(headers, HeaderNameView::ReqOnly(ReqOnlyHeader::Authorization)) {
        Some(HeaderValueView::Credentials(user, password)) => Some((user, password)),
        _ => None,
    }
}

/// The typed head that what was kept denotes: the first line is read, then
/// the headers in the order in which their names first came, then the
/// encoding is chosen; the first error decides.
pub open spec fn parsed_head(raw: RawReqHeadView, readings: ReadingsView) -> Result<
    ReqHeadView,
    ReqHeadParsingError,
> {
    match first_line_of(raw.request_line) {
        Err(e) => Err(e),
        Ok(line) => match typed_headers(raw.headers, readings) {
            Err(e) => Err(e),
            Ok(headers) => match head_encoding(headers) {
                Err(e) => Err(e),
                Ok(encoding) => Ok(
                    ReqHeadView {
                        verb: line.0,
                        target: line.1,
                        version: line.2,
                        headers,
                        credentials: head_credentials(headers),
                        encoding,
                    },
                ),
            },
        },
    }
}

/// The first line of a head that was read is the first line that was kept,
/// character by character.
pub proof fn lemma_head_first_line(raw: RawReqHeadView, readings: ReadingsView)
    requires
        parsed_head(raw, readings) is Ok,
    ensures
        parsed_head(raw, readings).unwrap().first_line() == chars_of(raw.request_line),
{
    utils::lemma_first_line_kept(raw.request_line);
}

/// The spellings of the qualities in the raw headers whose value is a list, in
/// order.
pub open spec fn head_quality_texts(raw: RawHeadersView) -> Seq<Seq<char>>
    decreases raw.len(),
{
    if raw.len() == 0 {
        Seq::<Seq<char>>::empty()
    } else {
        head_quality_texts(raw.drop_last()) + match known_header(
            chars_of(lower(raw.last().2)),
        ) {
            Some((_, ValueForm::List(_))) => quality_texts_of(raw.last().1),
            _ => Seq::<Seq<char>>::empty(),
        }
    }
}

/// The parser of a request head. It is fed the head line by line.
#[derive(Debug)]
pub struct ReqHeadParser {
    state: ReqHeadParserState,
    raw_req_head: RawReqHead,
}

impl View for ReqHeadParser {
    type V = ReqHeadParserView;

    closed spec fn view(&self) -> ReqHeadParserView {
        ReqHeadParserView { state: self.state, raw: self.raw_req_head@ }
    }
}

impl Default for ReqHeadParser {
    fn default() -> (r: Self)
        ensures
            r@ == ReqHeadParser::fresh(),
    {
        Self::new()
    }
}

impl ReqHeadParser {
    /// A parser that has seen nothing.
    pub open spec fn fresh() -> ReqHeadParserView {
        ReqHeadParserView {
            state: ReqHeadParserState::RequestLine,
            raw: RawReqHeadView {
                request_line: Seq::<u8>::empty(),
                headers: RawHeadersView::empty(),
                last_header_name: None,
            },
        }
    }

    /// A parser that has seen nothing.
    pub fn new() -> (r: Self)
        ensures
            r@ == Self::fresh(),
    {
        Self { state: ReqHeadParserState::RequestLine, raw_req_head: RawReqHead::new() }
    }

    /// Whether the empty line has come, so that the head can be read.
    pub fn is_complete(&self) -> (r: bool)
        ensures
            r == (self@.state == ReqHeadParserState::Done),
    {
        self.state == ReqHeadParserState::Done
    }

    /// Takes one line of the head. An error leaves the parser as it was.
    pub fn process_bytes(&mut self, bytes: Vec<u8>) -> (r: Result<(), ReqHeadParsingError>)
        requires
            old(self)@.state != ReqHeadParserState::Done,
        ensures
            match step(old(self)@, bytes@) {
                Ok(p) => r is Ok && final(self)@ == p,
                Err(e) => r == Err::<(), ReqHeadParsingError>(e) && final(self)@ == old(self)@,
            },
    {
        let bad = ascii_prefix_len(bytes.as_slice());
        if bad < bytes.len() {
            return Err(ReqHeadParsingError::Ascii(bad));
        }
        let n = bytes.len();
        let end: usize = if n >= 2 && bytes[n - 2] == 13 && bytes[n - 1] == 10 {
            n - 2
        } else if n >= 1 && bytes[n - 1] == 10 {
            n - 1
        } else {
            n
        };
        let line = copy_range(bytes.as_slice(), 0, end);
        proof {
            assert(line@ =~= strip_eol(bytes@));
        }
        match self.state {
            ReqHeadParserState::RequestLine => {
                if line.len() == 0 {
                    Err(ReqHeadParsingError::FirstLine(FirstLineParsingError::EmptyLine))
                } else {
                    self.raw_req_head.set_request_line(line);
                    self.state = ReqHeadParserState::Headers;
                    Ok(())
                }
            },
            ReqHeadParserState::Headers => {
                if line.len() == 0 {
                    self.state = ReqHeadParserState::Done;
                    return Ok(());
                }
                proof {
                    assert(line@.skip(0) == line@);
                }
                let colon = find_byte(line.as_slice(), 0, 58);
                if colon < line.len() {
                    if colon > 0 && line[colon - 1] == 32 {
                        return Err(
                            ReqHeadParsingError::Header(HeaderParsingError::SpaceBeforeColon),
                        );
                    }
                    let before = copy_range(line.as_slice(), 0, colon);
                    let after = copy_range(line.as_slice(), colon + 1, line.len());
                    proof {
                        assert(before@ =~= line@.take(colon as int));
                        assert(after@ =~= line@.skip(colon + 1));
                    }
                    let spelling = trim_bytes(before.as_slice());
                    let name = lower_bytes(spelling.as_slice());
                    let value = trim_start_bytes(after.as_slice());
                    self.raw_req_head.add(name, value.as_slice(), spelling.as_slice());
                    Ok(())
                } else {
                    let last = match &self.raw_req_head.last_header_name {
                        Some(name) => Some(copy_range(name.as_slice(), 0, name.len())),
                        None => None,
                    };
                    match last {
                        Some(name) => {
                            proof {
                                assert(name@ =~= old(self)@.raw.last_header_name.unwrap());
                            }
                            let spelling = copy_range(name.as_slice(), 0, name.len());
                            proof {
                                assert(spelling@ =~= name@);
                            }
                            self.raw_req_head.add(name, line.as_slice(), spelling.as_slice());
                            Ok(())
                        },
                        None => Err(ReqHeadParsingError::Header(HeaderParsingError::NoColon)),
                    }
                }
            },
            ReqHeadParserState::Done => Ok(()),
        }
    }

    /// The spellings of the qualities in the head. Each has to be read as a
    /// number before the head can be.
    pub fn quality_texts(&self) -> (r: Vec<String>)
        ensures
            texts(r@) == head_quality_texts(self@.raw.headers),
    {
        let mut out: Vec<String> = Vec::new();
        let ghost raw = self@.raw.headers;
        let mut i: usize = 0;
        proof {
            assert(raw.take(0) =~= RawHeadersView::empty());
            assert(texts(out@) =~= head_quality_texts(raw.take(0)));
        }
        while i < self.raw_req_head.headers.len()
            invariant
                i <= self.raw_req_head.headers@.len(),
                raw == self@.raw.headers,
                raw.len() == self.raw_req_head.headers@.len(),
                texts(out@) == head_quality_texts(raw.take(i as int)),
            decreases self.raw_req_head.headers@.len() - i,
        {
            proof {
                assert(raw.take(i + 1).drop_last() == raw.take(i as int));
                assert(raw.take(i + 1).last() == raw[i as int]);
                assert(raw[i as int] == (
                    self.raw_req_head.headers@[i as int].0@,
                    self.raw_req_head.headers@[i as int].1@,
                    self.raw_req_head.headers@[i as int].2@,
                ));
            }
            let lowered = lower_bytes(self.raw_req_head.headers[i].2.as_slice());
            let name = crate::text::string_of(lowered.as_slice());
            let ghost before = texts(out@);
            match utils::classify_header(name.as_str()) {
                Some((_, ValueForm::List(_))) => {
                    utils::push_quality_texts(
                        &mut out,
                        self.raw_req_head.headers[i].1.as_slice(),
                    );
                },
                _ => {
                    proof {
                        assert(before + Seq::<Seq<char>>::empty() =~= before);
                    }
                },
            }
            i += 1;
        }
        proof {
            assert(raw.take(i as int) == raw);
        }
        out
    }

    /// Reads the head from what was kept. `readings` gives, for the spelling
    /// of each quality, the number that it was read as; a spelling without a
    /// reading is no number.
    pub fn do_parse(&mut self, readings: &Vec<FloatReading>) -> (r: Result<
        ReqHead,
        ReqHeadParsingError,
    >)
        ensures
            final(self)@ == old(self)@,
            match parsed_head(old(self)@.raw, readings_view(readings@)) {
                Ok(h) => r matches Ok(x) && x@ == h,
                Err(e) => r matches Err(x) && x == e,
            },
    {
        let line = match utils::parse_first_line(self.raw_req_head.request_line.as_slice()) {
            Ok(l) => l,
            Err(e) => {
                return Err(e);
            },
        };
        let ghost raw = self@.raw.headers;
        let ghost rv = readings_view(readings@);
        let mut headers: HeaderMap<ReqHeader> = HeaderMap::new();
        let mut i: usize = 0;
        proof {
            assert(raw.take(0) =~= RawHeadersView::empty());
        }
        while i < self.raw_req_head.headers.len()
            invariant
                i <= self.raw_req_head.headers@.len(),
                *self == *old(self),
                raw == self@.raw.headers,
                raw.len() == self.raw_req_head.headers@.len(),
                rv == readings_view(readings@),
                first_line_of(self@.raw.request_line) is Ok,
                typed_headers(raw.take(i as int), rv) == Ok::<HeadersView, ReqHeadParsingError>(
                    headers@,
                ),
            decreases self.raw_req_head.headers@.len() - i,
        {
            proof {
                assert(raw.take(i + 1).drop_last() == raw.take(i as int));
                assert(raw.take(i + 1).last() == raw[i as int]);
                assert(raw[i as int] == (
                    self.raw_req_head.headers@[i as int].0@,
                    self.raw_req_head.headers@[i as int].1@,
                    self.raw_req_head.headers@[i as int].2@,
                ));
            }
            match utils::parse_header(
                self.raw_req_head.headers[i].2.as_slice(),
                self.raw_req_head.headers[i].1.as_slice(),
                readings,
            ) {
                Ok(h) => {
                    headers.insert(h.0, h.1);
                },
                Err(e) => {
                    proof {
                        assert(typed_headers(raw.take(i + 1), rv) == Err::<
                            HeadersView,
                            ReqHeadParsingError,
                        >(e));
                        lemma_typed_error(raw, rv, i + 1);
                    }
                    return Err(e);
                },
            }
            i += 1;
        }
        proof {
            assert(raw.take(i as int) == raw);
        }
        let encoding = match headers.get(&ReqHeader::ReqOnly(ReqOnlyHeader::AcceptEncoding)) {
            Some(HeaderValue::Parsed(list)) => if is_blank_list(list) {
                None
            } else {
                proof {
                    assert(list@ =~= Seq::new(
                        list.0@.len(),
                        |k: int| (list.0@[k].0@, list.0@[k].1@),
                    ));
                }
                match utils::extract_supported_encoding(&list.0) {
                    Ok(e) => e,
                    Err(e) => {
                        proof {
                            assert(typed_headers(raw, rv) == Ok::<HeadersView, ReqHeadParsingError>(
                                headers@,
                            ));
                            assert(headers_get(
                                headers@,
                                HeaderNameView::ReqOnly(ReqOnlyHeader::AcceptEncoding),
                            ) == Some(HeaderValueView::Parsed(list@)));
                            assert(head_encoding(headers@) == Err::<
                                Option<SupportedEncoding>,
                                ReqHeadParsingError,
                            >(e));
                        }
                        return Err(e);
                    },
                }
            },
            _ => None,
        };
        let credentials = match headers.get(&ReqHeader::ReqOnly(ReqOnlyHeader::Authorization)) {
            Some(HeaderValue::Credentials(user, password)) => Some(
                (user.clone(), password.clone()),
            ),
            _ => None,
        };
        Ok(ReqHead::new(line.0, line.1, line.2, headers, credentials, encoding))
    }

    /// Makes the parser ready for a new head.
    pub fn reset(&mut self)
        ensures
            final(self)@ == Self::fresh(),
    {
        self.state = ReqHeadParserState::RequestLine;
        self.raw_req_head = RawReqHead::new();
    }
}


/// The typed headers depend on the readings only through the qualities of the
/// raw headers.
proof fn lemma_typed_readings(raw: RawHeadersView, a: ReadingsView, b: ReadingsView)
    requires
        readings_agree(a, b, head_quality_texts(raw)),
    ensures
        typed_headers(raw, a) == typed_headers(raw, b),
    decreases raw.len(),
{
    if raw.len() > 0 {
        let last = match known_header(chars_of(lower(raw.last().2))) {
            Some((_, ValueForm::List(_))) => quality_texts_of(raw.last().1),
            _ => Seq::<Seq<char>>::empty(),
        };
        let first = head_quality_texts(raw.drop_last());
        let all = first + last;
        assert forall|i: int| 0 <= i < first.len() implies utils::reading_of(
            a,
            #[trigger] first[i],
        ) == utils::reading_of(b, first[i]) by {
            assert(all[i] == first[i]);
        }
        assert forall|i: int| 0 <= i < last.len() implies utils::reading_of(a, #[trigger] last[i])
            == utils::reading_of(b, last[i]) by {
            assert(all[first.len() + i] == last[i]);
        }
        lemma_typed_readings(raw.drop_last(), a, b);
        match known_header(chars_of(lower(raw.last().2))) {
            Some((_, ValueForm::List(kind))) => {
                utils::lemma_value_readings(raw.last().1, kind, a, b);
            },
            _ => {},
        }
    }
}

/// Reading a head looks at the readings of the spellings that the parser
/// names, and at no other: two sets of readings that agree on them give the
/// same head, or the same error.
pub proof fn lemma_head_readings(raw: RawReqHeadView, a: ReadingsView, b: ReadingsView)
    requires
        readings_agree(a, b, head_quality_texts(raw.headers)),
    ensures
        parsed_head(raw, a) == parsed_head(raw, b),
{
    lemma_typed_readings(raw.headers, a, b);
}


/// A header on one line: the name, a colon and a space, the value, and the
/// end of the line.
pub open spec fn header_line_bytes(name: Seq<u8>, value: Seq<u8>) -> Seq<u8> {
    name + seq![58u8, 32u8] + value + seq![13u8, 10u8]
}

/// Whether a name is as the parser keeps names: ASCII without a colon, in
/// lower case, with no whitespace at either end.
pub open spec fn kept_name(name: Seq<u8>) -> bool {
    &&& is_ascii_bytes(name)
    &&& index_of(name, 58) == name.len()
    &&& lower(name) == name
    &&& name.len() == 0 || (!is_space(name[0]) && !is_space(name.last()))
}

/// Bytes put behind one another are ASCII where each of them is.
proof fn lemma_ascii_add(a: Seq<u8>, b: Seq<u8>)
    requires
        is_ascii_bytes(a),
        is_ascii_bytes(b),
    ensures
        is_ascii_bytes(a + b),
{
    lemma_position(a, is_non_ascii());
    lemma_position(b, is_non_ascii());
    let s = a + b;
    assert forall|i: int| 0 <= i < s.len() implies !is_non_ascii()(#[trigger] s[i]) by {
        if i < a.len() {
            assert(s[i] == a[i]);
        } else {
            assert(s[i] == b[i - a.len()]);
        }
    }
    lemma_position_is(s, is_non_ascii(), s.len() as int);
}

/// A first line that is ASCII and not empty, with the end of the line behind
/// it, is kept as it is.
pub proof fn lemma_request_line_read(p: ReqHeadParserView, line: Seq<u8>)
    requires
        p.state == ReqHeadParserState::RequestLine,
        is_ascii_bytes(line),
        line.len() > 0,
    ensures
        step(p, line + seq![13u8, 10u8]) == Ok::<ReqHeadParserView, ReqHeadParsingError>(
            ReqHeadParserView {
                state: ReqHeadParserState::Headers,
                raw: RawReqHeadView {
                    request_line: line,
                    headers: p.raw.headers,
                    last_header_name: p.raw.last_header_name,
                },
            },
        ),
{
    let eol = seq![13u8, 10u8];
    let bytes = line + eol;
    lemma_position_is(eol, is_non_ascii(), 2);
    lemma_ascii_add(line, eol);
    assert(strip_eol(bytes) =~= line);
}

/// The empty line ends the head.
pub proof fn lemma_empty_line_read(p: ReqHeadParserView)
    requires
        p.state == ReqHeadParserState::Headers,
    ensures
        step(p, seq![13u8, 10u8]) == Ok::<ReqHeadParserView, ReqHeadParsingError>(
            ReqHeadParserView { state: ReqHeadParserState::Done, raw: p.raw },
        ),
{
    let eol = seq![13u8, 10u8];
    lemma_position_is(eol, is_non_ascii(), 2);
    assert(strip_eol(eol) =~= Seq::<u8>::empty());
}

/// Whether a name can be written on a line and found again: it is ASCII
/// without a colon and has no whitespace at either end.
pub open spec fn written_name(name: Seq<u8>) -> bool {
    &&& is_ascii_bytes(name)
    &&& index_of(name, 58) == name.len()
    &&& name.len() == 0 || (!is_space(name[0]) && !is_space(name.last()))
}

/// A header that is written on one line, with a name that can be written and
/// a value that is ASCII and does not begin with whitespace, is read as the
/// name in lower case with that value, and a name that is new is kept as it
/// is spelled.
pub proof fn lemma_header_line_read(p: ReqHeadParserView, name: Seq<u8>, value: Seq<u8>)
    requires
        p.state == ReqHeadParserState::Headers,
        written_name(name),
        is_ascii_bytes(value),
        value.len() == 0 || !is_space(value[0]),
    ensures
        step(p, header_line_bytes(name, value)) == Ok::<ReqHeadParserView, ReqHeadParsingError>(
            ReqHeadParserView {
                state: ReqHeadParserState::Headers,
                raw: RawReqHeadView {
                    request_line: p.raw.request_line,
                    headers: raw_with(p.raw.headers, lower(name), value, name),
                    last_header_name: Some(lower(name)),
                },
            },
        ),
{
    let sep = seq![58u8, 32u8];
    let eol = seq![13u8, 10u8];
    let bytes = header_line_bytes(name, value);
    let line = name + sep + value;
    lemma_position_is(sep, is_non_ascii(), 2);
    lemma_position_is(eol, is_non_ascii(), 2);
    lemma_ascii_add(name, sep);
    lemma_ascii_add(name + sep, value);
    lemma_ascii_add(line, eol);
    assert(strip_eol(bytes) =~= line);
    lemma_position(name, is_item(58u8));
    assert forall|i: int| 0 <= i < name.len() implies !is_item(58u8)(#[trigger] line[i]) by {
        assert(line[i] == name[i]);
    }
    assert(line[name.len() as int] == 58u8);
    lemma_position_is(line, is_item(58u8), name.len() as int);
    if name.len() > 0 {
        assert(line[name.len() - 1] == name.last());
    }
    assert(line.take(name.len() as int) =~= name);
    assert(line.skip(name.len() as int + 1) =~= seq![32u8] + value);
    lemma_trim_identity(name);
    lemma_trim_start_identity(value);
}

/// The name of the header that a raw name stands for.
pub open spec fn typed_name(name: Seq<u8>) -> HeaderNameView {
    match known_header(chars_of(lower(name))) {
        Some(k) => k.0,
        None => HeaderNameView::Other(chars_of(name)),
    }
}

/// Names that stand for the same header are the same but for their case.
pub proof fn lemma_typed_name_injective(a: Seq<u8>, b: Seq<u8>)
    requires
        typed_name(a) == typed_name(b),
    ensures
        lower(a) == lower(b),
{
    utils::lemma_known_names(chars_of(lower(a)));
    utils::lemma_known_names(chars_of(lower(b)));
    crate::text::lemma_bytes_of_chars(a);
    crate::text::lemma_bytes_of_chars(b);
    crate::text::lemma_bytes_of_chars(lower(a));
    crate::text::lemma_bytes_of_chars(lower(b));
    if known_header(chars_of(lower(a))) is None {
        assert(chars_of(a) == chars_of(b));
    } else {
        assert(chars_of(lower(a)) == chars_of(lower(b)));
    }
}

/// Raw headers of distinct names are read one by one: there are as many typed
/// headers as raw ones, and each is what its raw header denotes.
pub proof fn lemma_typed_one_by_one(raw: RawHeadersView, readings: ReadingsView)
    requires
        raw_distinct(raw),
        forall|i: int| 0 <= i < raw.len() ==> lower((#[trigger] raw[i]).2) == raw[i].0,
        typed_headers(raw, readings) is Ok,
    ensures
        typed_headers(raw, readings).unwrap().len() == raw.len(),
        forall|i: int|
            0 <= i < raw.len() ==> header_of((#[trigger] raw[i]).2, raw[i].1, readings) == Ok::<
                (HeaderNameView, HeaderValueView),
                ReqHeadParsingError,
            >(typed_headers(raw, readings).unwrap()[i]) && typed_headers(
                raw,
                readings,
            ).unwrap()[i].0 == typed_name(raw[i].2),
    decreases raw.len(),
{
    if raw.len() > 0 {
        let front = raw.drop_last();
        assert forall|i: int, j: int| 0 <= i < j < front.len() implies (#[trigger] front[i]).0 != (
        #[trigger] front[j]).0 by {
            assert(front[i] == raw[i] && front[j] == raw[j]);
        }
        assert forall|i: int| 0 <= i < front.len() implies lower((#[trigger] front[i]).2)
            == front[i].0 by {
            assert(front[i] == raw[i]);
        }
        lemma_typed_one_by_one(front, readings);
        let hs = typed_headers(front, readings).unwrap();
        let last = header_of(raw.last().2, raw.last().1, readings).unwrap();
        assert(last.0 == typed_name(raw.last().2));
        assert forall|k: int| 0 <= k < hs.len() implies !crate::http_header::is_named(last.0)(
            #[trigger] hs[k],
        ) by {
            assert(front[k] == raw[k]);
            if hs[k].0 == last.0 {
                lemma_typed_name_injective(raw[k].2, raw.last().2);
                assert(lower(raw[k].2) == raw[k].0);
                assert(lower(raw[raw.len() - 1].2) == raw[raw.len() - 1].0);
                assert(raw[k].0 != raw[raw.len() - 1].0);
            }
        }
        lemma_position_is(hs, crate::http_header::is_named(last.0), hs.len() as int);
        let all = typed_headers(raw, readings).unwrap();
        assert(all == hs.push(last));
        assert forall|i: int| 0 <= i < raw.len() implies header_of(
            (#[trigger] raw[i]).2,
            raw[i].1,
            readings,
        ) == Ok::<(HeaderNameView, HeaderValueView), ReqHeadParsingError>(all[i]) && all[i].0
            == typed_name(raw[i].2) by {
            if i < front.len() {
                assert(front[i] == raw[i]);
                assert(all[i] == hs[i]);
            }
        }
    }
}


/// What a parser holds after it was fed lines one after the other, or the
/// first error.
pub open spec fn fed(p: ReqHeadParserView, lines: Seq<Seq<u8>>) -> Result<
    ReqHeadParserView,
    ReqHeadParsingError,
>
    decreases lines.len(),
{
    if lines.len() == 0 {
        Ok(p)
    } else {
        match fed(p, lines.drop_last()) {
            Err(e) => Err(e),
            Ok(q) => step(q, lines.last()),
        }
    }
}

/// Feeding lines and then more lines is feeding all of them.
pub proof fn lemma_fed_add(p: ReqHeadParserView, a: Seq<Seq<u8>>, b: Seq<Seq<u8>>)
    ensures
        fed(p, a + b) == match fed(p, a) {
            Err(e) => Err(e),
            Ok(q) => fed(q, b),
        },
    decreases b.len(),
{
    if b.len() == 0 {
        assert(a + b =~= a);
    } else {
        assert((a + b).drop_last() =~= a + b.drop_last());
        assert((a + b).last() == b.last());
        lemma_fed_add(p, a, b.drop_last());
    }
}

/// The headers as they are written, one line each, as bytes.
pub open spec fn header_lines(headers: HeadersView) -> Seq<Seq<u8>> {
    Seq::new(headers.len(), |i: int| bytes_of(header_line(headers[i].0, headers[i].1)))
}

/// A head as it is written, line by line, as bytes: the first line, the
/// headers, the empty line.
pub open spec fn head_lines(h: ReqHeadView) -> Seq<Seq<u8>> {
    seq![bytes_of(h.first_line() + seq!['\r', '\n'])] + header_lines(h.headers) + seq![
        seq![13u8, 10u8],
    ]
}

/// Whether what is kept of a head is as a parser keeps it: everything is
/// ASCII, the names are distinct and as the parser keeps names, and each is
/// the lower-case form of its spelling, which can be written.
pub open spec fn well_kept(raw: RawReqHeadView) -> bool {
    &&& is_ascii_bytes(raw.request_line)
    &&& raw_distinct(raw.headers)
    &&& forall|i: int|
        0 <= i < raw.headers.len() ==> kept_name((#[trigger] raw.headers[i]).0) && is_ascii_bytes(
            raw.headers[i].1,
        ) && written_name(raw.headers[i].2) && lower(raw.headers[i].2) == raw.headers[i].0
    &&& raw.last_header_name matches Some(name) ==> kept_name(name)
}

/// Whether a raw header is read again as what it was read as once it is
/// written out: its value is a text that does not begin with whitespace, or a
/// number, or a list in which no atom ends in whitespace as it is written
/// with its members and each media type comes back from what it is written
/// as, or credentials whose bytes Base64 gives back.
pub open spec fn rereadable(header: (Seq<u8>, Seq<u8>, Seq<u8>), readings: ReadingsView) -> bool {
    match known_header(chars_of(lower(header.2))) {
        None => header.1.len() == 0 || !is_space(header.1[0]),
        Some((_, ValueForm::Text)) => header.1.len() == 0 || !is_space(header.1[0]),
        Some((_, ValueForm::Number)) => true,
        Some((_, ValueForm::List(kind))) => {
            let list = utils::entries_of(split(header.1, 44), kind, readings);
            list is Ok && utils::clean_ends(list.unwrap()) && utils::types_return(list.unwrap())
        },
        Some((_, ValueForm::Credentials)) => utils::credentials_of(header.1) is Some
            && utils::base64_returns(utils::base64_decoded(header.1.skip(6)).unwrap()),
    }
}

/// A spelling whose lower-case form is a name as the parser keeps names can
/// be written on a line, and is read as that name.
proof fn lemma_written_from_lower(spelling: Seq<char>, name: Seq<u8>)
    requires
        lower_chars(spelling) == chars_of(name),
        kept_name(name),
    ensures
        written_name(bytes_of(spelling)),
        lower(bytes_of(spelling)) == name,
{
    let w = bytes_of(spelling);
    lemma_position(name, is_non_ascii());
    lemma_position(name, is_item(58u8));
    assert(lower_chars(spelling).len() == spelling.len());
    assert(chars_of(name).len() == name.len());
    assert(w.len() == name.len());
    assert forall|i: int| 0 <= i < w.len() implies lower_byte(#[trigger] w[i]) == name[i] && w[i]
        < 128 by {
        assert(lower_chars(spelling)[i] == lower_char(spelling[i]));
        assert(chars_of(name)[i] == name[i] as char);
        assert(lower_char(spelling[i]) == name[i] as char);
        assert(!is_non_ascii()(name[i]));
        assert(w[i] == spelling[i] as u8);
    }
    assert forall|i: int| 0 <= i < w.len() implies !is_non_ascii()(#[trigger] w[i]) by {
        assert(lower_byte(w[i]) == name[i]);
    }
    lemma_position_is(w, is_non_ascii(), w.len() as int);
    assert forall|i: int| 0 <= i < w.len() implies !is_item(58u8)(#[trigger] w[i]) by {
        assert(lower_byte(w[i]) == name[i]);
        assert(!is_item(58u8)(name[i]));
    }
    lemma_position_is(w, is_item(58u8), w.len() as int);
    if w.len() > 0 {
        assert(lower_byte(w[0]) == name[0]);
        assert(lower_byte(w[w.len() - 1]) == name[w.len() - 1]);
    }
    assert(lower(w) =~= name);
}

/// A raw header that is read again as what it was read as: written out, its
/// name can be written and is the name but for its case, its value is ASCII
/// without whitespace at the start, and the name with that value denotes the
/// same header.
proof fn lemma_header_reread(name: Seq<u8>, value: Seq<u8>, readings: ReadingsView)
    requires
        written_name(name),
        kept_name(lower(name)),
        is_ascii_bytes(value),
        rereadable((lower(name), value, name), readings),
        header_of(name, value, readings) is Ok,
    ensures
        ({
            let t = header_of(name, value, readings).unwrap();
            let w = bytes_of(t.0.wire());
            let v = bytes_of(t.1.wire());
            &&& written_name(w)
            &&& lower(w) == lower(name)
            &&& is_ascii_bytes(v)
            &&& v.len() == 0 || !is_space(v[0])
            &&& header_of(w, v, readings) == Ok::<
                (HeaderNameView, HeaderValueView),
                ReqHeadParsingError,
            >(t)
            &&& bytes_of(header_line(t.0, t.1)) == header_line_bytes(w, v)
        }),
{
    let t = header_of(name, value, readings).unwrap();
    let w = bytes_of(t.0.wire());
    let v = bytes_of(t.1.wire());
    utils::lemma_known_names(chars_of(lower(name)));
    lemma_bytes_of_chars(name);
    lemma_bytes_of_chars(value);
    match known_header(chars_of(lower(name))) {
        None => {
            assert(w == name);
        },
        Some(k) => {
            lemma_written_from_lower(k.0.wire(), lower(name));
        },
    }
    match t.1 {
        HeaderValueView::Simple(SimpleValueView::Number(n)) => {
            lemma_decimal_digits(n as nat);
            lemma_number_round_trip(n);
            assert forall|i: int| 0 <= i < v.len() implies !is_non_ascii()(#[trigger] v[i]) by {}
            lemma_position_is(v, is_non_ascii(), v.len() as int);
        },
        HeaderValueView::Credentials(user, password) => {
            assert(known_header(chars_of(lower(name))) matches Some(k) && k.1
                == ValueForm::Credentials);
            assert(utils::credentials_of(value) == Some((user, password)));
            let decoded = utils::base64_decoded(value.skip(6)).unwrap();
            assert(utils::base64_returns(decoded));
            assert(utils::credentials_in(decoded) == Some((user, password)));
            let colon = index_of(decoded, 58);
            lemma_position(decoded, is_item(58u8));
            assert(decoded =~= decoded.take(colon) + seq![58u8] + decoded.skip(colon + 1));
            vstd::utf8::decode_utf8_encode_utf8(decoded.take(colon));
            vstd::utf8::decode_utf8_encode_utf8(decoded.skip(colon + 1));
            assert(crate::http_header::value::credentials_bytes(user, password) =~= decoded);
            let encoded = utils::base64_encoded(decoded);
            reveal_strlit("Basic ");
            assert(bytes_of("Basic "@) =~= utils::basic_prefix());
            crate::text::lemma_bytes_of_add("Basic "@, encoded);
            assert(v == utils::basic_prefix() + bytes_of(encoded));
            assert(v.take(6) =~= utils::basic_prefix());
            assert(v.skip(6) =~= bytes_of(encoded));
            assert forall|i: int| 0 <= i < v.len() implies #[trigger] v[i] < 128 by {
                assert(utils::basic_prefix().len() == 6);
                assert(bytes_of(encoded).len() == encoded.len());
                if i >= 6 {
                    assert(0 <= i - 6 < encoded.len());
                    assert(v[i] == bytes_of(encoded)[i - 6]);
                    assert(bytes_of(encoded)[i - 6] == encoded[i - 6] as u8);
                    vstd::utf8::is_ascii_chars_nat_bound(encoded);
                    assert((encoded[i - 6] as nat) < 128);
                } else {
                    assert(v[i] == utils::basic_prefix()[i]);
                }
            }
            lemma_ascii_each(v);
        },
        HeaderValueView::Parsed(list) => {
            match known_header(chars_of(lower(name))) {
                Some((_, ValueForm::List(kind))) => {
                    utils::lemma_list_reread(value, kind, readings);
                },
                _ => {},
            }
        },
        _ => {
            assert(v == value);
        },
    }
    assert(bytes_of(header_line(t.0, t.1)) =~= header_line_bytes(w, v));
}

/// Raw headers that denote the same headers, one by one, denote the same
/// typed headers.
proof fn lemma_typed_same(a: RawHeadersView, b: RawHeadersView, readings: ReadingsView)
    requires
        a.len() == b.len(),
        forall|i: int|
            0 <= i < a.len() ==> header_of((#[trigger] a[i]).2, a[i].1, readings) == header_of(
                b[i].2,
                b[i].1,
                readings,
            ),
    ensures
        typed_headers(a, readings) == typed_headers(b, readings),
    decreases a.len(),
{
    if a.len() > 0 {
        assert forall|i: int| 0 <= i < a.drop_last().len() implies header_of(
            (#[trigger] a.drop_last()[i]).2,
            a.drop_last()[i].1,
            readings,
        ) == header_of(b.drop_last()[i].2, b.drop_last()[i].1, readings) by {
            assert(a.drop_last()[i] == a[i]);
            assert(b.drop_last()[i] == b[i]);
        }
        lemma_typed_same(a.drop_last(), b.drop_last(), readings);
        assert(a.last() == a[a.len() - 1]);
        assert(b.last() == b[a.len() - 1]);
    }
}

/// The raw headers with the names and the values as they are written out
/// again.
pub open spec fn rewritten(raw: RawHeadersView, headers: HeadersView) -> RawHeadersView {
    Seq::new(
        raw.len(),
        |i: int| (raw[i].0, bytes_of(headers[i].1.wire()), bytes_of(headers[i].0.wire())),
    )
}

/// Feeding the first headers as they are written gives the first raw headers
/// with the values as they are written.
proof fn lemma_headers_fed(
    line: Seq<u8>,
    raw: RawHeadersView,
    readings: ReadingsView,
    j: int,
)
    requires
        0 <= j <= raw.len(),
        well_kept(RawReqHeadView { request_line: line, headers: raw, last_header_name: None }),
        forall|i: int| 0 <= i < raw.len() ==> rereadable(#[trigger] raw[i], readings),
        typed_headers(raw, readings) is Ok,
    ensures
        ({
            let hs = typed_headers(raw, readings).unwrap();
            let start = ReqHeadParserView {
                state: ReqHeadParserState::Headers,
                raw: RawReqHeadView {
                    request_line: line,
                    headers: RawHeadersView::empty(),
                    last_header_name: None,
                },
            };
            fed(start, header_lines(hs).take(j)) matches Ok(p) && p.state
                == ReqHeadParserState::Headers && p.raw.request_line == line && p.raw.headers
                == rewritten(raw, hs).take(j)
        }),
    decreases j,
{
    let hs = typed_headers(raw, readings).unwrap();
    let lines = header_lines(hs);
    lemma_typed_one_by_one(raw, readings);
    if j == 0 {
        assert(lines.take(0) =~= Seq::<Seq<u8>>::empty());
        assert(rewritten(raw, hs).take(0) =~= RawHeadersView::empty());
    } else {
        lemma_headers_fed(line, raw, readings, j - 1);
        let k = j - 1;
        assert(lines.take(j).drop_last() =~= lines.take(k));
        assert(lines.take(j).last() == lines[k]);
        let start = ReqHeadParserView {
            state: ReqHeadParserState::Headers,
            raw: RawReqHeadView {
                request_line: line,
                headers: RawHeadersView::empty(),
                last_header_name: None,
            },
        };
        let q = fed(start, lines.take(k)).unwrap();
        let name = raw[k].0;
        let spelling = raw[k].2;
        let value = raw[k].1;
        assert(kept_name(raw[k].0) && is_ascii_bytes(raw[k].1) && written_name(raw[k].2) && lower(
            raw[k].2,
        ) == raw[k].0);
        assert(rereadable(raw[k], readings));
        assert(header_of(spelling, value, readings) == Ok::<
            (HeaderNameView, HeaderValueView),
            ReqHeadParsingError,
        >(hs[k]));
        assert(raw[k] == (lower(spelling), value, spelling));
        lemma_header_reread(spelling, value, readings);
        let w = bytes_of(hs[k].0.wire());
        let v = bytes_of(hs[k].1.wire());
        assert(lines[k] == header_line_bytes(w, v));
        lemma_header_line_read(q, w, v);
        let before = rewritten(raw, hs).take(k);
        assert forall|i: int| 0 <= i < before.len() implies !is_raw_named(name)(
            #[trigger] before[i],
        ) by {
            assert(before[i].0 == raw[i].0);
            assert(raw[i].0 != raw[k].0);
        }
        lemma_position_is(before, is_raw_named(name), before.len() as int);
        assert(raw_with(before, name, v, w) =~= rewritten(raw, hs).take(j));
    }
}

/// Feeding a head as it is written leaves the parser done, with the first
/// line as it was kept and the raw headers with the values as they are
/// written.
proof fn lemma_head_fed(raw: RawReqHeadView, readings: ReadingsView)
    requires
        well_kept(raw),
        forall|i: int|
            0 <= i < raw.headers.len() ==> rereadable(#[trigger] raw.headers[i], readings),
        parsed_head(raw, readings) is Ok,
    ensures
        ({
            let h = parsed_head(raw, readings).unwrap();
            fed(ReqHeadParser::fresh(), head_lines(h)) matches Ok(p) && p.state
                == ReqHeadParserState::Done && p.raw.request_line == raw.request_line
                && p.raw.headers == rewritten(raw.headers, h.headers)
        }),
{
    let h = parsed_head(raw, readings).unwrap();
    let hs = typed_headers(raw.headers, readings).unwrap();
    assert(h.headers == hs);
    let eol = seq![13u8, 10u8];
    let line = raw.request_line;
    let first = bytes_of(h.first_line() + seq!['\r', '\n']);
    let fresh = ReqHeadParser::fresh();
    let start = ReqHeadParserView {
        state: ReqHeadParserState::Headers,
        raw: RawReqHeadView {
            request_line: line,
            headers: RawHeadersView::empty(),
            last_header_name: None,
        },
    };
    assert(fed(fresh, seq![first]) == Ok::<ReqHeadParserView, ReqHeadParsingError>(start)) by {
        lemma_head_first_line(raw, readings);
        lemma_bytes_of_chars(line);
        crate::text::lemma_split_three(line, 32u8);
        assert(first =~= line + eol);
        lemma_request_line_read(fresh, line);
        assert(seq![first].drop_last() =~= Seq::<Seq<u8>>::empty());
        assert(fed(fresh, Seq::<Seq<u8>>::empty()) == Ok::<
            ReqHeadParserView,
            ReqHeadParsingError,
        >(fresh));
        assert(seq![first].last() == first);
    }
    let lines = header_lines(hs);
    let again = rewritten(raw.headers, hs);
    assert(fed(start, lines) matches Ok(q) && q.state == ReqHeadParserState::Headers
        && q.raw.request_line == line && q.raw.headers == again) by {
        lemma_headers_fed(line, raw.headers, readings, raw.headers.len() as int);
        lemma_typed_one_by_one(raw.headers, readings);
        assert(lines.take(raw.headers.len() as int) =~= lines);
        assert(again.take(raw.headers.len() as int) =~= again);
    }
    let q = fed(start, lines).unwrap();
    assert(fed(q, seq![eol]) == Ok::<ReqHeadParserView, ReqHeadParsingError>(
        ReqHeadParserView { state: ReqHeadParserState::Done, raw: q.raw },
    )) by {
        lemma_empty_line_read(q);
        assert(seq![eol].drop_last() =~= Seq::<Seq<u8>>::empty());
        assert(fed(q, Seq::<Seq<u8>>::empty()) == Ok::<ReqHeadParserView, ReqHeadParsingError>(q));
        assert(seq![eol].last() == eol);
    }
    lemma_fed_add(fresh, seq![first], lines);
    lemma_fed_add(fresh, seq![first] + lines, seq![eol]);
}

/// A head is read again as the same head once it is written out, where each
/// of its headers is a text that does not begin with whitespace, a number, a
/// list in which no atom ends in whitespace as it is written with its members
/// and each media type comes back from what it is written as, or credentials
/// whose bytes Base64 gives back: fed to a fresh parser line by line as it is
/// written, it leaves the parser done, and what the parser holds then denotes
/// the head.
pub proof fn lemma_head_round_trip(raw: RawReqHeadView, readings: ReadingsView)
    requires
        well_kept(raw),
        forall|i: int|
            0 <= i < raw.headers.len() ==> rereadable(#[trigger] raw.headers[i], readings),
        parsed_head(raw, readings) is Ok,
    ensures
        ({
            let h = parsed_head(raw, readings).unwrap();
            fed(ReqHeadParser::fresh(), head_lines(h)) matches Ok(p) && p.state
                == ReqHeadParserState::Done && parsed_head(p.raw, readings) == Ok::<
                ReqHeadView,
                ReqHeadParsingError,
            >(h)
        }),
{
    let h = parsed_head(raw, readings).unwrap();
    let hs = typed_headers(raw.headers, readings).unwrap();
    lemma_head_fed(raw, readings);
    lemma_typed_one_by_one(raw.headers, readings);
    let again = rewritten(raw.headers, hs);
    assert forall|i: int| 0 <= i < again.len() implies header_of(
        (#[trigger] again[i]).2,
        again[i].1,
        readings,
    ) == header_of(raw.headers[i].2, raw.headers[i].1, readings) by {
        let e = raw.headers[i];
        assert(kept_name(e.0) && is_ascii_bytes(e.1) && written_name(e.2) && lower(e.2) == e.0);
        assert(rereadable(e, readings));
        assert(e == (lower(e.2), e.1, e.2));
        lemma_header_reread(e.2, e.1, readings);
    }
    lemma_typed_same(again, raw.headers, readings);
}


/// What the parser makes of what stands before a colon can be written, and
/// in lower case it is as the parser keeps names.
proof fn lemma_name_kept(line: Seq<u8>, colon: int)
    requires
        is_ascii_bytes(line),
        colon == index_of(line, 58),
        0 <= colon <= line.len(),
    ensures
        kept_name(lower(trim(line.take(colon)))),
        written_name(trim(line.take(colon))),
{
    let before = line.take(colon);
    let t = trim(before);
    let name = lower(t);
    lemma_trim(before);
    let (from, to) = choose|from: int, to: int|
        0 <= from <= to <= before.len() && trim(before) == before.subrange(from, to);
    lemma_ascii_each(line);
    lemma_position(line, is_item(58u8));
    assert forall|i: int| 0 <= i < name.len() implies #[trigger] name[i] < 128 && name[i] != 58
        && lower_byte(name[i]) == name[i] && t[i] < 128 && t[i] != 58 by {
        assert(name[i] == lower_byte(t[i]));
        assert(t[i] == line[from + i]);
        assert(!is_item(58u8)(line[from + i]));
    }
    assert forall|i: int| 0 <= i < t.len() implies #[trigger] t[i] < 128 && t[i] != 58 by {
        assert(name[i] == lower_byte(t[i]));
    }
    lemma_ascii_each(name);
    lemma_absent_each(name, 58u8);
    lemma_ascii_each(t);
    lemma_absent_each(t, 58u8);
    assert(lower(name) =~= name);
    if name.len() > 0 {
        assert(name[0] == lower_byte(t[0]));
        assert(name.last() == lower_byte(t.last()));
    }
}

/// Whether a raw header is as the parser keeps headers.
pub open spec fn kept_header(e: (Seq<u8>, Seq<u8>, Seq<u8>)) -> bool {
    kept_name(e.0) && is_ascii_bytes(e.1) && written_name(e.2) && lower(e.2) == e.0
}

/// Adding ASCII to a header leaves every header as the parser keeps headers.
proof fn lemma_raw_with_kept(s: RawHeadersView, name: Seq<u8>, text: Seq<u8>, spelling: Seq<u8>)
    requires
        kept_name(name),
        is_ascii_bytes(text),
        written_name(spelling),
        lower(spelling) == name,
        forall|i: int| 0 <= i < s.len() ==> kept_header(#[trigger] s[i]),
    ensures
        forall|i: int|
            0 <= i < raw_with(s, name, text, spelling).len() ==> kept_header(
                #[trigger] raw_with(s, name, text, spelling)[i],
            ),
{
    let r = raw_with(s, name, text, spelling);
    let k = position(s, is_raw_named(name));
    lemma_position(s, is_raw_named(name));
    assert forall|i: int| 0 <= i < r.len() implies kept_header(#[trigger] r[i]) by {
        if 0 <= k < s.len() {
            if i == k {
                assert(kept_header(s[k]));
                lemma_ascii_add(s[k].1, text);
            } else {
                assert(r[i] == s[i]);
            }
        } else {
            if i < s.len() {
                assert(r[i] == s[i]);
            }
        }
    }
}

/// What a parser keeps stays as a parser keeps it: a fresh parser holds
/// nothing, and a line leaves everything ASCII and the names distinct, in
/// lower case, without colon and without whitespace at either end, each with
/// a spelling of which it is the lower-case form.
pub proof fn lemma_step_well_kept(p: ReqHeadParserView, bytes: Seq<u8>)
    requires
        well_kept(p.raw),
        step(p, bytes) is Ok,
    ensures
        well_kept(step(p, bytes).unwrap().raw),
        well_kept(ReqHeadParser::fresh().raw),
{
    assert(well_kept(ReqHeadParser::fresh().raw)) by {
        lemma_position_is(Seq::<u8>::empty(), is_non_ascii(), 0);
    }
    let line = strip_eol(bytes);
    lemma_ascii_each(bytes);
    assert(is_ascii_bytes(bytes)) by {
        lemma_position(bytes, is_non_ascii());
    }
    assert(is_ascii_bytes(line)) by {
        assert forall|i: int| 0 <= i < line.len() implies #[trigger] line[i] < 128 by {
            assert(line[i] == bytes[i]);
        }
        lemma_ascii_each(line);
    }
    match p.state {
        ReqHeadParserState::Headers => {
            if line.len() != 0 {
                let colon = index_of(line, 58);
                lemma_position(line, is_item(58u8));
                if 0 <= colon < line.len() {
                    let name = lower(trim(line.take(colon)));
                    let text = trim_start(line.skip(colon + 1));
                    lemma_name_kept(line, colon);
                    lemma_trim_start(line.skip(colon + 1));
                    assert(is_ascii_bytes(text)) by {
                        let rest = line.skip(colon + 1);
                        let from = choose|from: int|
                            0 <= from <= rest.len() && trim_start(rest) == rest.subrange(
                                from,
                                rest.len() as int,
                            );
                        lemma_ascii_each(line);
                        assert forall|i: int| 0 <= i < text.len() implies #[trigger] text[i]
                            < 128 by {
                            assert(text[i] == line[colon + 1 + from + i]);
                        }
                        lemma_ascii_each(text);
                    }
                    let spelling = trim(line.take(colon));
                    assert forall|i: int| 0 <= i < p.raw.headers.len() implies kept_header(
                        #[trigger] p.raw.headers[i],
                    ) by {}
                    lemma_raw_with_kept(p.raw.headers, name, text, spelling);
                    lemma_raw_with_distinct(p.raw.headers, name, text, spelling);
                    let after = raw_with(p.raw.headers, name, text, spelling);
                    assert forall|i: int| 0 <= i < after.len() implies kept_name(
                        (#[trigger] after[i]).0,
                    ) && is_ascii_bytes(after[i].1) && written_name(after[i].2) && lower(
                        after[i].2,
                    ) == after[i].0 by {
                        assert(kept_header(after[i]));
                    }
                } else {
                    let name = p.raw.last_header_name.unwrap();
                    assert forall|i: int| 0 <= i < p.raw.headers.len() implies kept_header(
                        #[trigger] p.raw.headers[i],
                    ) by {}
                    assert(lower(name) =~= name);
                    lemma_raw_with_kept(p.raw.headers, name, line, name);
                    lemma_raw_with_distinct(p.raw.headers, name, line, name);
                    let after = raw_with(p.raw.headers, name, line, name);
                    assert forall|i: int| 0 <= i < after.len() implies kept_name(
                        (#[trigger] after[i]).0,
                    ) && is_ascii_bytes(after[i].1) && written_name(after[i].2) && lower(
                        after[i].2,
                    ) == after[i].0 by {
                        assert(kept_header(after[i]));
                    }
                }
            }
        },
        _ => {},
    }
}

} // verus!
