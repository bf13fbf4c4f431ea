//! Responses.
//!
//! A response is a first line, headers and a body. The head is made of
//! characters and is written out here; the body is bytes that are held in
//! memory, or a file that is open for reading.

use crate::http_header::headers_has;
use crate::http_header::headers_wire;
use crate::http_header::headers_with;
use crate::http_header::HeaderMap;
use crate::http_header::HeaderValue;
use crate::http_header::HeadersView;
use crate::http_header::ResHeader;
use crate::text::decimal;
use crate::text::push_decimal;
use vstd::prelude::*;
use vstd::string::StrSliceExecFns;
use vstd::string::StringExecFns;
use vstd::utf8::encode_utf8;

verus! {

/// A file of `tokio` that is open for reading. Nothing is known of it here;
/// it is carried to whoever sends the body.
#[verifier::external_type_specification]
#[verifier::external_body]
pub struct ExFile(tokio::fs::File);

/// The reason phrase of a status code. A code that HTTP/1.1 does not define
/// has the phrase `Unknown Error`.
pub open spec fn reason_phrase(status_code: u16) -> Seq<char> {
    match status_code {
        100 => "Continue"@,
        101 => "Switching Protocols"@,
        200 => "OK"@,
        201 => "Created"@,
        202 => "Accepted"@,
        203 => "Non-Authoritative Information"@,
        204 => "No Content"@,
        205 => "Reset Content"@,
        206 => "Partial Content"@,
        300 => "Multiple Choices"@,
        301 => "Moved Permanently"@,
        302 => "Found"@,
        303 => "See Other"@,
        304 => "Not Modified"@,
        305 => "Use Proxy"@,
        307 => "Temporary Redirect"@,
        400 => "Bad Request"@,
        401 => "Unauthorized"@,
        402 => "Payment Required"@,
        403 => "Forbidden"@,
        404 => "Not Found"@,
        405 => "Method Not Allowed"@,
        406 => "Not Acceptable"@,
        407 => "Proxy Authentication Required"@,
        408 => "Request Timeout"@,
        409 => "Conflict"@,
        410 => "Gone"@,
        411 => "Length Required"@,
        412 => "Precondition Failed"@,
        413 => "Payload Too Large"@,
        414 => "URI Too Long"@,
        415 => "Unsupported Media Type"@,
        416 => "Range Not Satisfiable"@,
        417 => "Expectation Failed"@,
        426 => "Upgrade Required"@,
        500 => "Internal Server Error"@,
        501 => "Not Implemented"@,
        502 => "Bad Gateway"@,
        503 => "Service Unavailable"@,
        504 => "Gateway Timeout"@,
        505 => "HTTP Version Not Supported"@,
        _ => "Unknown Error"@,
    }
}

/// The reason phrase of a status code.
pub fn get_reason_phrase(status_code: u16) -> (r: String)
    ensures
        r@ == reason_phrase(status_code),
{
    match status_code {
        100 => String::from_str("Continue"),
        101 => String::from_str("Switching Protocols"),
        200 => String::from_str("OK"),
        201 => String::from_str("Created"),
        202 => String::from_str("Accepted"),
        203 => String::from_str("Non-Authoritative Information"),
        204 => String::from_str("No Content"),
        205 => String::from_str("Reset Content"),
        206 => String::from_str("Partial Content"),
        300 => String::from_str("Multiple Choices"),
        301 => String::from_str("Moved Permanently"),
        302 => String::from_str("Found"),
        303 => String::from_str("See Other"),
        304 => String::from_str("Not Modified"),
        305 => String::from_str("Use Proxy"),
        307 => String::from_str("Temporary Redirect"),
        400 => String::from_str("Bad Request"),
        401 => String::from_str("Unauthorized"),
        402 => String::from_str("Payment Required"),
        403 => String::from_str("Forbidden"),
        404 => String::from_str("Not Found"),
        405 => String::from_str("Method Not Allowed"),
        406 => String::from_str("Not Acceptable"),
        407 => String::from_str("Proxy Authentication Required"),
        408 => String::from_str("Request Timeout"),
        409 => String::from_str("Conflict"),
        410 => String::from_str("Gone"),
        411 => String::from_str("Length Required"),
        412 => String::from_str("Precondition Failed"),
        413 => String::from_str("Payload Too Large"),
        414 => String::from_str("URI Too Long"),
        415 => String::from_str("Unsupported Media Type"),
        416 => String::from_str("Range Not Satisfiable"),
        417 => String::from_str("Expectation Failed"),
        426 => String::from_str("Upgrade Required"),
        500 => String::from_str("Internal Server Error"),
        501 => String::from_str("Not Implemented"),
        502 => String::from_str("Bad Gateway"),
        503 => String::from_str("Service Unavailable"),
        504 => String::from_str("Gateway Timeout"),
        505 => String::from_str("HTTP Version Not Supported"),
        _ => String::from_str("Unknown Error"),
    }
}

/// The body of a response, without the file.
pub enum ResBodyView {
    /// The bytes of a body that is held in memory.
    Bytes(Seq<u8>),
    /// The length of a body that is read from a file.
    Stream(u64),
}

impl ResBodyView {
    /// The number of bytes of the body.
    pub open spec fn len(self) -> nat {
        match self {
            Self::Bytes(bytes) => bytes.len(),
            Self::Stream(len) => len as nat,
        }
    }
}

/// The body of a response.
pub enum ResBody {
    /// A body that is held in memory.
    Bytes(Vec<u8>),
    /// A body that is read from an open file, with the length of the file.
    Stream(tokio::fs::File, u64),
}

impl View for ResBody {
    type V = ResBodyView;

    open spec fn view(&self) -> ResBodyView {
        match self {
            Self::Bytes(bytes) => ResBodyView::Bytes(bytes@),
            Self::Stream(_, len) => ResBodyView::Stream(*len),
        }
    }
}

impl ResBody {
    /// The number of bytes of the body. A length that a `usize` cannot hold is
    /// given as the largest `usize`.
    pub fn len(&self) -> (n: usize)
        ensures
            n == if self@.len() <= usize::MAX {
                self@.len()
            } else {
                usize::MAX as nat
            },
    {
        match self {
            Self::Bytes(bytes) => bytes.len(),
            Self::Stream(_, len) => {
                if *len <= usize::MAX as u64 {
                    *len as usize
                } else {
                    usize::MAX
                }
            },
        }
    }

    /// Whether the body has no bytes.
    pub fn is_empty(&self) -> (r: bool)
        ensures
            r == (self@.len() == 0),
    {
        match self {
            Self::Bytes(bytes) => bytes.len() == 0,
            Self::Stream(_, len) => *len == 0,
        }
    }
}

/// A response, as characters.
pub struct HttpResView {
    pub version: Seq<char>,
    pub status_code: u16,
    pub headers: HeadersView,
    pub body: Option<ResBodyView>,
    pub raw_headers: Option<Seq<char>>,
}

impl HttpResView {
    /// The first line of the head: the version, the status code in decimal and
    /// the reason phrase, with one space between them, and the end of the
    /// line.
    pub open spec fn status_line(self) -> Seq<char> {
        self.version + seq![' '] + decimal(self.status_code as nat) + seq![' '] + reason_phrase(
            self.status_code,
        ) + seq!['\r', '\n']
    }

    /// The head on the wire: the first line; the headers, one line each; the
    /// raw headers as they are, where there are any; an empty line.
    pub open spec fn head(self) -> Seq<char> {
        self.status_line() + headers_wire(self.headers) + match self.raw_headers {
            Some(raw) => raw,
            None => Seq::<char>::empty(),
        } + seq!['\r', '\n']
    }

    /// The number of bytes of the body; 0 where there is none.
    pub open spec fn body_len(self) -> nat {
        match self.body {
            Some(body) => body.len(),
            None => 0,
        }
    }
}

/// A response.
pub struct HttpRes {
    version: String,
    status_code: u16,
    headers: HeaderMap<ResHeader>,
    body: Option<ResBody>,
    raw_headers: Option<String>,
}

impl View for HttpRes {
    type V = HttpResView;

    closed spec fn view(&self) -> HttpResView {
        HttpResView {
            version: self.version@,
            status_code: self.status_code,
            headers: self.headers@,
            body: match self.body {
                Some(body) => Some(body@),
                None => None,
            },
            raw_headers: match self.raw_headers {
                Some(raw) => Some(raw@),
                None => None,
            },
        }
    }
}

impl HttpRes {
    /// A response of that version with the status 200, without headers and
    /// without body.
    pub fn new(version: &str) -> (r: Self)
        ensures
            r@ == (HttpResView {
                version: version@,
                status_code: 200,
                headers: HeadersView::empty(),
                body: None,
                raw_headers: None,
            }),
    {
        Self {
            version: String::from_str(version),
            status_code: 200,
            headers: HeaderMap::new(),
            body: None,
            raw_headers: None,
        }
    }

    /// The status code.
    pub fn status_code(&self) -> (r: u16)
        ensures
            r == self@.status_code,
    {
        self.status_code
    }

    /// Sets the status code.
    pub fn set_status(&mut self, status_code: u16)
        ensures
            final(self)@ == (HttpResView { status_code, ..old(self)@ }),
    {
        self.status_code = status_code
    }

    /// Whether the header `name` is set.
    pub fn has_header(&self, name: ResHeader) -> (r: bool)
        ensures
            r == headers_has(self@.headers, name@),
    {
        self.headers.contains_key(&name)
    }

    /// Sets the header `name` to `value`.
    pub fn set_header(&mut self, name: ResHeader, value: HeaderValue)
        ensures
            final(self)@ == (HttpResView {
                headers: headers_with(old(self)@.headers, name@, value@),
                ..old(self)@
            }),
    {
        self.headers.insert(name, value);
    }

    /// Sets the raw headers: lines that are written behind the headers as they
    /// are.
    pub fn set_raw_headers(&mut self, headers: String)
        ensures
            final(self)@ == (HttpResView { raw_headers: Some(headers@), ..old(self)@ }),
    {
        self.raw_headers = Some(headers);
    }

    /// The head on the wire, as characters.
    pub fn head_string(&self) -> (s: String)
        ensures
            s@ == self@.head(),
    {
        let mut s = self.version.clone();
        s.push(' ');
        push_decimal(&mut s, self.status_code as u64);
        s.push(' ');
        let reason = get_reason_phrase(self.status_code);
        s.append(reason.as_str());
        s.push('\r');
        s.push('\n');
        proof {
            assert(s@ =~= self@.status_line());
        }
        let headers = self.headers.to_string();
        s.append(headers.as_str());
        match &self.raw_headers {
            Some(raw) => {
                s.append(raw.as_str());
            },
            None => {
                proof {
                    assert(s@ + Seq::<char>::empty() =~= s@);
                }
            },
        }
        s.push('\r');
        s.push('\n');
        proof {
            assert(s@ =~= self@.head());
        }
        s
    }

    /// The head on the wire: the UTF-8 bytes of its characters.
    pub fn head_bytes(&self) -> (r: Vec<u8>)
        ensures
            r@ == encode_utf8(self@.head()),
    {
        let s = self.head_string();
        s.as_str().as_bytes_vec()
    }

    /// The body.
    pub fn body_ref(&self) -> (r: Option<&ResBody>)
        ensures
            match r {
                Some(b) => self@.body == Some(b@),
                None => self@.body is None,
            },
    {
        self.body.as_ref()
    }

    /// The number of bytes of the body, 0 where there is none. A length that a
    /// `usize` cannot hold is given as the largest `usize`.
    pub fn body_len(&self) -> (n: usize)
        ensures
            n == if self@.body_len() <= usize::MAX {
                self@.body_len()
            } else {
                usize::MAX as nat
            },
    {
        match &self.body {
            Some(b) => b.len(),
            None => 0,
        }
    }

    /// Sets or removes the body.
    pub fn set_body(&mut self, body: Option<ResBody>)
        ensures
            final(self)@ == (HttpResView {
                body: match body {
                    Some(b) => Some(b@),
                    None => None,
                },
                ..old(self)@
            }),
    {
        self.body = body;
    }

    /// The body, to be changed in place.
    pub fn body_mut(&mut self) -> (r: Option<&mut ResBody>)
        ensures
            match r {
                Some(b) => old(self)@.body == Some(b@) && final(self)@ == (HttpResView {
                    body: Some(final(b)@),
                    ..old(self)@
                }),
                None => old(self)@.body is None && final(self)@ == old(self)@,
            },
    {
        self.body.as_mut()
    }

    /// The headers, to be changed in place.
    pub fn headers(&mut self) -> (r: &mut HeaderMap<ResHeader>)
        ensures
            r@ == old(self)@.headers,
            final(self)@ == (HttpResView { headers: final(r)@, ..old(self)@ }),
    {
        &mut self.headers
    }

    /// The headers.
    pub fn headers_ref(&self) -> (r: &HeaderMap<ResHeader>)
        ensures
            r@ == self@.headers,
    {
        &self.headers
    }

    /// The version.
    pub fn version(&self) -> (r: &str)
        ensures
            r@ == self@.version,
    {
        self.version.as_str()
    }
}

} // verus!
