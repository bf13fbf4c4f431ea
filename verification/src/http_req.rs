//! Requests.
//!
//! A request is a head, which is the first line and the headers, and a body
//! that may be missing.

use crate::http_header::headers_get;
use crate::http_header::headers_wire;
use crate::http_header::value::HeaderValueView;
use crate::http_header::value::SimpleValueView;
use crate::http_header::EntityHeader;
use crate::http_header::GeneralHeader;
use crate::http_header::HeaderMap;
use crate::http_header::HeaderNameView;
use crate::http_header::HeaderValue;
use crate::http_header::HeadersView;
use crate::http_header::ReqHeader;
use crate::http_header::SimpleHeaderValue;
use crate::req_parser::SupportedEncoding;
use crate::text::str_eq;
use vstd::prelude::*;
use vstd::string::StringSliceAdditionalSpecFns;
use vstd::string::StringExecFns;

verus! {

/// The verb of a request.
#[derive(Debug, Clone, Copy, PartialEq, Eq, Structural)]
pub enum ReqVerb {
    Get,
    Post,
    Put,
    Patch,
    Delete,
}

impl ReqVerb {
    /// The verb as it is written on the wire.
    pub open spec fn wire(self) -> Seq<char> {
        match self {
            Self::Get => "GET"@,
            Self::Post => "POST"@,
            Self::Put => "PUT"@,
            Self::Patch => "PATCH"@,
            Self::Delete => "DELETE"@,
        }
    }

    /// The verb as it is written on the wire.
    pub fn to_string(&self) -> (s: String)
        ensures
            s@ == self.wire(),
    {
        match self {
            Self::Get => String::from_str("GET"),
            Self::Post => String::from_str("POST"),
            Self::Put => String::from_str("PUT"),
            Self::Patch => String::from_str("PATCH"),
            Self::Delete => String::from_str("DELETE"),
        }
    }
}

/// The path of a request, as characters.
pub struct ReqPathView {
    pub original: Seq<char>,
    pub decoded: Seq<char>,
    pub query: Seq<char>,
}

/// The path of a request.
#[derive(Debug, Clone, PartialEq, Eq)]
pub struct ReqPath {
    /// The target as it was received, percent-encoded, with its query.
    pub original: String,
    /// The path before the query, percent-decoded.
    pub decoded: String,
    /// The query: what stands between the first `?` and the first `#` after it.
    pub query: String,
}

impl View for ReqPath {
    type V = ReqPathView;

    open spec fn view(&self) -> ReqPathView {
        ReqPathView { original: self.original@, decoded: self.decoded@, query: self.query@ }
    }
}

/// The target of a request, as characters.
pub enum ReqTargetView {
    All,
    Path(ReqPathView),
}

impl ReqTargetView {
    /// The target as it is written on the wire.
    pub open spec fn wire(self) -> Seq<char> {
        match self {
            Self::All => seq!['*'],
            Self::Path(path) => path.original,
        }
    }
}

/// The target of a request: everything, written `*`, or a path.
#[derive(Debug, Clone, PartialEq, Eq)]
pub enum ReqTarget {
    All,
    Path(ReqPath),
}

impl View for ReqTarget {
    type V = ReqTargetView;

    open spec fn view(&self) -> ReqTargetView {
        match self {
            Self::All => ReqTargetView::All,
            Self::Path(path) => ReqTargetView::Path(path@),
        }
    }
}

impl ReqTarget {
    /// The target as it is written on the wire.
    pub fn to_string(&self) -> (s: String)
        ensures
            s@ == self@.wire(),
    {
        match self {
            Self::All => {
                let mut s = String::new();
                s.push('*');
                proof {
                    assert(s@ =~= seq!['*']);
                }
                s
            },
            Self::Path(path) => path.original.clone(),
        }
    }
}

/// The head of a request, as characters.
pub struct ReqHeadView {
    pub verb: ReqVerb,
    pub target: ReqTargetView,
    pub version: Seq<char>,
    pub headers: HeadersView,
    pub credentials: Option<(Seq<char>, Seq<char>)>,
    pub encoding: Option<SupportedEncoding>,
}

impl ReqHeadView {
    /// The first line without the end of the line: verb, target and version,
    /// with one space between them.
    pub open spec fn first_line(self) -> Seq<char> {
        self.verb.wire() + seq![' '] + self.target.wire() + seq![' '] + self.version
    }

    /// The head on the wire: the first line, then the headers, one line each.
    pub open spec fn wire(self) -> Seq<char> {
        self.first_line() + seq!['\r', '\n'] + headers_wire(self.headers)
    }

    /// Whether the sender asks for the connection to be closed: the header
    /// `Connection` is the text `close`.
    pub open spec fn should_close(self) -> bool {
        headers_get(self.headers, HeaderNameView::General(GeneralHeader::Connection)) == Some(
            HeaderValueView::Simple(SimpleValueView::Text("close"@)),
        )
    }

    /// The length that the header `Content-Length` gives, or 0 where it gives
    /// none.
    pub open spec fn body_len(self) -> nat {
        match headers_get(self.headers, HeaderNameView::Entity(EntityHeader::ContentLength)) {
            Some(HeaderValueView::Simple(SimpleValueView::Number(n))) => n as nat,
            _ => 0,
        }
    }
}

/// The head of a request: the first line and the headers.
#[derive(Debug)]
pub struct ReqHead {
    verb: ReqVerb,
    target: ReqTarget,
    version: String,
    headers: HeaderMap<ReqHeader>,
    authentication_credentials: Option<(String, String)>,
    encoding: Option<SupportedEncoding>,
}

impl View for ReqHead {
    type V = ReqHeadView;

    closed spec fn view(&self) -> ReqHeadView {
        ReqHeadView {
            verb: self.verb,
            target: self.target@,
            version: self.version@,
            headers: self.headers@,
            credentials: match self.authentication_credentials {
                Some(c) => Some((c.0@, c.1@)),
                None => None,
            },
            encoding: self.encoding,
        }
    }
}

impl ReqHead {
    /// A head of these parts.
    pub fn new(
        verb: ReqVerb,
        target: ReqTarget,
        version: String,
        headers: HeaderMap<ReqHeader>,
        authentication_credentials: Option<(String, String)>,
        encoding: Option<SupportedEncoding>,
    ) -> (r: Self)
        ensures
            r@ == (ReqHeadView {
                verb,
                target: target@,
                version: version@,
                headers: headers@,
                credentials: match authentication_credentials {
                    Some(c) => Some((c.0@, c.1@)),
                    None => None,
                },
                encoding,
            }),
    {
        Self { verb, target, version, headers, authentication_credentials, encoding }
    }

    /// The first line, without the end of the line.
    pub fn first_line(&self) -> (s: String)
        ensures
            s@ == self@.first_line(),
    {
        let mut s = self.verb.to_string();
        s.push(' ');
        let target = self.target.to_string();
        s.append(target.as_str());
        s.push(' ');
        s.append(self.version.as_str());
        s
    }

    /// Whether the sender asks for the connection to be closed.
    pub fn should_close(&self) -> (r: bool)
        ensures
            r == self@.should_close(),
    {
        match self.headers.get(&ReqHeader::General(GeneralHeader::Connection)) {
            Some(HeaderValue::Simple(SimpleHeaderValue::String(v))) => str_eq(v.as_str(), "close"),
            _ => false,
        }
    }

    /// The encoding chosen among those that the sender accepts.
    pub fn accepted_encoding(&self) -> (r: Option<&SupportedEncoding>)
        ensures
            match r {
                Some(e) => self@.encoding == Some(*e),
                None => self@.encoding is None,
            },
    {
        self.encoding.as_ref()
    }

    /// The credentials that the sender gave.
    pub fn auth_creds(&self) -> (r: Option<&(String, String)>)
        ensures
            match r {
                Some(c) => self@.credentials == Some((c.0@, c.1@)),
                None => self@.credentials is None,
            },
    {
        self.authentication_credentials.as_ref()
    }

    /// The length of the body that the head announces. A length that a
    /// `usize` cannot hold is given as the largest `usize`.
    pub fn body_len(&self) -> (n: usize)
        ensures
            n == if self@.body_len() <= usize::MAX {
                self@.body_len()
            } else {
                usize::MAX as nat
            },
    {
        match self.headers.get(&ReqHeader::Entity(EntityHeader::ContentLength)) {
            Some(HeaderValue::Simple(SimpleHeaderValue::Number(n))) => {
                if *n <= usize::MAX as u64 {
                    *n as usize
                } else {
                    usize::MAX
                }
            },
            _ => 0,
        }
    }

    /// The value of the header `Content-Encoding`.
    pub fn body_encoding(&self) -> (r: Option<&HeaderValue>)
        ensures
            match r {
                Some(v) => headers_get(
                    self@.headers,
                    HeaderNameView::Entity(EntityHeader::ContentEncoding),
                ) == Some(v@),
                None => headers_get(
                    self@.headers,
                    HeaderNameView::Entity(EntityHeader::ContentEncoding),
                ) is None,
            },
    {
        self.headers.get(&ReqHeader::Entity(EntityHeader::ContentEncoding))
    }

    /// The text of the header `Content-Type`: nothing where the header is
    /// missing, the empty text where its value is no text.
    pub fn body_type(&self) -> (r: Option<&str>)
        ensures
            match headers_get(self@.headers, HeaderNameView::Entity(EntityHeader::ContentType)) {
                Some(HeaderValueView::Simple(SimpleValueView::Text(t))) => r matches Some(s)
                    && s@ == t,
                Some(_) => r matches Some(s) && s@.len() == 0,
                None => r is None,
            },
    {
        match self.headers.get(&ReqHeader::Entity(EntityHeader::ContentType)) {
            Some(HeaderValue::Simple(SimpleHeaderValue::String(s))) => Some(s.as_str()),
            Some(_) => {
                proof {
                    reveal_strlit("");
                }
                Some("")
            },
            None => None,
        }
    }

    /// The verb.
    pub fn verb(&self) -> (r: &ReqVerb)
        ensures
            *r == self@.verb,
    {
        &self.verb
    }

    /// The target.
    pub fn target(&self) -> (r: &ReqTarget)
        ensures
            r@ == self@.target,
    {
        &self.target
    }

    /// The version.
    pub fn version(&self) -> (r: &str)
        ensures
            r@ == self@.version,
    {
        self.version.as_str()
    }

    /// The headers.
    pub fn headers(&self) -> (r: &HeaderMap<ReqHeader>)
        ensures
            r@ == self@.headers,
    {
        &self.headers
    }

    /// The headers, to be changed in place.
    pub fn headers_mut(&mut self) -> (r: &mut HeaderMap<ReqHeader>)
        ensures
            r@ == old(self)@.headers,
            final(self)@ == (ReqHeadView { headers: final(r)@, ..old(self)@ }),
    {
        &mut self.headers
    }

    /// The head on the wire.
    pub fn to_string(&self) -> (s: String)
        ensures
            s@ == self@.wire(),
    {
        let mut s = self.first_line();
        s.push('\r');
        s.push('\n');
        let headers = self.headers.to_string();
        s.append(headers.as_str());
        s
    }
}

/// The body of a request.
#[derive(Debug)]
pub struct ReqBody {
    bytes: Vec<u8>,
    content_type: String,
}

impl ReqBody {
    /// The bytes of the body.
    pub closed spec fn spec_bytes(&self) -> Seq<u8> {
        self.bytes@
    }

    /// The type that the sender gave for the body.
    pub closed spec fn spec_content_type(&self) -> Seq<char> {
        self.content_type@
    }

    /// A body of these bytes and this type.
    pub fn new(bytes: Vec<u8>, content_type: String) -> (r: Self)
        ensures
            r.spec_bytes() == bytes@,
            r.spec_content_type() == content_type@,
    {
        Self { bytes, content_type }
    }

    /// The bytes of the body.
    pub fn bytes(&self) -> (r: &Vec<u8>)
        ensures
            r@ == self.spec_bytes(),
    {
        &self.bytes
    }

    /// The type that the sender gave for the body.
    pub fn content_type(&self) -> (r: &str)
        ensures
            r@ == self.spec_content_type(),
    {
        self.content_type.as_str()
    }
}

/// A request. The time at which it came is held as the number of
/// milliseconds since the beginning of 1970 in UTC.
pub struct HttpReq {
    date: i64,
    head: ReqHead,
    body: Option<ReqBody>,
}

impl HttpReq {
    /// The time at which the request came.
    pub closed spec fn spec_date(&self) -> i64 {
        self.date
    }

    /// The head of the request.
    pub closed spec fn spec_head(&self) -> ReqHeadView {
        self.head@
    }

    /// The body of the request.
    pub closed spec fn spec_body(&self) -> Option<ReqBody> {
        self.body
    }

    /// A request that came at `date`, of this head and this body.
    pub fn new(date: i64, head: ReqHead, body: Option<ReqBody>) -> (r: Self)
        ensures
            r.spec_date() == date,
            r.spec_head() == head@,
            r.spec_body() == body,
    {
        Self { date, head, body }
    }

    /// The time at which the request came.
    pub fn date(&self) -> (r: &i64)
        ensures
            *r == self.spec_date(),
    {
        &self.date
    }

    /// The version.
    pub fn version(&self) -> (r: &str)
        ensures
            r@ == self.spec_head().version,
    {
        self.head.version()
    }

    /// The verb.
    pub fn verb(&self) -> (r: &ReqVerb)
        ensures
            *r == self.spec_head().verb,
    {
        self.head.verb()
    }

    /// The target.
    pub fn target(&self) -> (r: &ReqTarget)
        ensures
            r@ == self.spec_head().target,
    {
        self.head.target()
    }

    /// The first line, without the end of the line.
    pub fn first_line(&self) -> (s: String)
        ensures
            s@ == self.spec_head().first_line(),
    {
        self.head.first_line()
    }

    /// Whether the sender asks for the connection to be closed.
    pub fn should_close(&self) -> (r: bool)
        ensures
            r == self.spec_head().should_close(),
    {
        self.head.should_close()
    }

    /// The headers, to be changed in place.
    pub fn headers(&mut self) -> (r: &mut HeaderMap<ReqHeader>)
        ensures
            r@ == old(self).spec_head().headers,
            final(self).spec_head() == (ReqHeadView {
                headers: final(r)@,
                ..old(self).spec_head()
            }),
            final(self).spec_date() == old(self).spec_date(),
            final(self).spec_body() == old(self).spec_body(),
    {
        self.head.headers_mut()
    }

    /// The encoding chosen among those that the sender accepts.
    pub fn accepted_encoding(&self) -> (r: Option<&SupportedEncoding>)
        ensures
            match r {
                Some(e) => self.spec_head().encoding == Some(*e),
                None => self.spec_head().encoding is None,
            },
    {
        self.head.accepted_encoding()
    }

    /// The credentials that the sender gave.
    pub fn auth_creds(&self) -> (r: Option<&(String, String)>)
        ensures
            match r {
                Some(c) => self.spec_head().credentials == Some((c.0@, c.1@)),
                None => self.spec_head().credentials is None,
            },
    {
        self.head.auth_creds()
    }

    /// The head.
    pub fn head(&self) -> (r: &ReqHead)
        ensures
            r@ == self.spec_head(),
    {
        &self.head
    }

    /// The body.
    pub fn body(&self) -> (r: Option<&ReqBody>)
        ensures
            match r {
                Some(b) => self.spec_body() == Some(*b),
                None => self.spec_body() is None,
            },
    {
        self.body.as_ref()
    }
}

} // verus!
