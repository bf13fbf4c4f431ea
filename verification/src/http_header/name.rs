//! Header names.
//!
//! The names that HTTP/1.1 defines are enumerated, by the kind of message they
//! may stand in. Each has one spelling on the wire.

use vstd::prelude::*;
use vstd::string::StringExecFns;

verus! {

/// A header that may stand in a request and in a response.
#[derive(Debug, Clone, Copy, PartialEq, Eq, Hash, Structural)]
pub enum GeneralHeader {
    CacheControl,
    Connection,
    Date,
    Pragma,
    Trailer,
    TransferEncoding,
    Upgrade,
    Via,
    Warning,
}

impl GeneralHeader {
    /// The name as it is written on the wire.
    pub open spec fn wire(self) -> Seq<char> {
        match self {
            Self::CacheControl => "Cache-Control"@,
            Self::Connection => "Connection"@,
            Self::Date => "Date"@,
            Self::Pragma => "Pragma"@,
            Self::Trailer => "Trailer"@,
            Self::TransferEncoding => "Transfer-Encoding"@,
            Self::Upgrade => "Upgrade"@,
            Self::Via => "Via"@,
            Self::Warning => "Warning"@,
        }
    }


    /// The name as it is written on the wire.
    pub fn to_string(&self) -> (s: String)
        ensures
            s@ == self.wire(),
    {
        match self {
            Self::CacheControl => String::from_str("Cache-Control"),
            Self::Connection => String::from_str("Connection"),
            Self::Date => String::from_str("Date"),
            Self::Pragma => String::from_str("Pragma"),
            Self::Trailer => String::from_str("Trailer"),
            Self::TransferEncoding => String::from_str("Transfer-Encoding"),
            Self::Upgrade => String::from_str("Upgrade"),
            Self::Via => String::from_str("Via"),
            Self::Warning => String::from_str("Warning"),
        }
    }
}

/// A header that may stand in a request only.
#[derive(Debug, Clone, Copy, PartialEq, Eq, Hash, Structural)]
pub enum ReqOnlyHeader {
    Accept,
    AcceptCharset,
    AcceptEncoding,
    AcceptLanguage,
    Authorization,
    Expect,
    From,
    Host,
    IfMatch,
    IfModifiedSince,
    IfNoneMatch,
    IfRange,
    IfUnmodifiedSince,
    MaxForwards,
    ProxyAuthorization,
    Range,
    Referer,
    TE,
    UserAgent,
}

impl ReqOnlyHeader {
    /// The name as it is written on the wire.
    pub open spec fn wire(self) -> Seq<char> {
        match self {
            Self::Accept => "Accept"@,
            Self::AcceptCharset => "Accept-Charset"@,
            Self::AcceptEncoding => "Accept-Encoding"@,
            Self::AcceptLanguage => "Accept-Language"@,
            Self::Authorization => "Authorization"@,
            Self::Expect => "Expect"@,
            Self::From => "From"@,
            Self::Host => "Host"@,
            Self::IfMatch => "If-Match"@,
            Self::IfModifiedSince => "If-Modified-Since"@,
            Self::IfNoneMatch => "If-None-Match"@,
            Self::IfRange => "If-Range"@,
            Self::IfUnmodifiedSince => "If-Unmodified-Since"@,
            Self::MaxForwards => "Max-Forwards"@,
            Self::ProxyAuthorization => "Proxy-Authorization"@,
            Self::Range => "Range"@,
            Self::Referer => "Referer"@,
            Self::TE => "TE"@,
            Self::UserAgent => "User-Agent"@,
        }
    }


    /// The name as it is written on the wire.
    pub fn to_string(&self) -> (s: String)
        ensures
            s@ == self.wire(),
    {
        match self {
            Self::Accept => String::from_str("Accept"),
            Self::AcceptCharset => String::from_str("Accept-Charset"),
            Self::AcceptEncoding => String::from_str("Accept-Encoding"),
            Self::AcceptLanguage => String::from_str("Accept-Language"),
            Self::Authorization => String::from_str("Authorization"),
            Self::Expect => String::from_str("Expect"),
            Self::From => String::from_str("From"),
            Self::Host => String::from_str("Host"),
            Self::IfMatch => String::from_str("If-Match"),
            Self::IfModifiedSince => String::from_str("If-Modified-Since"),
            Self::IfNoneMatch => String::from_str("If-None-Match"),
            Self::IfRange => String::from_str("If-Range"),
            Self::IfUnmodifiedSince => String::from_str("If-Unmodified-Since"),
            Self::MaxForwards => String::from_str("Max-Forwards"),
            Self::ProxyAuthorization => String::from_str("Proxy-Authorization"),
            Self::Range => String::from_str("Range"),
            Self::Referer => String::from_str("Referer"),
            Self::TE => String::from_str("TE"),
            Self::UserAgent => String::from_str("User-Agent"),
        }
    }
}

/// A header that may stand in a response only.
#[derive(Debug, Clone, Copy, PartialEq, Eq, Hash, Structural)]
pub enum ResOnlyHeader {
    AcceptRanges,
    Age,
    ETag,
    Location,
    ProxyAuthenticate,
    RetryAfter,
    Server,
    Vary,
    WWWAuthenticate,
}

impl ResOnlyHeader {
    /// The name as it is written on the wire.
    pub open spec fn wire(self) -> Seq<char> {
        match self {
            Self::AcceptRanges => "Accept-Ranges"@,
            Self::Age => "Age"@,
            Self::ETag => "ETag"@,
            Self::Location => "Location"@,
            Self::ProxyAuthenticate => "Proxy-Authenticate"@,
            Self::RetryAfter => "Retry-After"@,
            Self::Server => "Server"@,
            Self::Vary => "Vary"@,
            Self::WWWAuthenticate => "WWW-Authenticate"@,
        }
    }


    /// The name as it is written on the wire.
    pub fn to_string(&self) -> (s: String)
        ensures
            s@ == self.wire(),
    {
        match self {
            Self::AcceptRanges => String::from_str("Accept-Ranges"),
            Self::Age => String::from_str("Age"),
            Self::ETag => String::from_str("ETag"),
            Self::Location => String::from_str("Location"),
            Self::ProxyAuthenticate => String::from_str("Proxy-Authenticate"),
            Self::RetryAfter => String::from_str("Retry-After"),
            Self::Server => String::from_str("Server"),
            Self::Vary => String::from_str("Vary"),
            Self::WWWAuthenticate => String::from_str("WWW-Authenticate"),
        }
    }
}

/// A header that describes the body of a message.
#[derive(Debug, Clone, Copy, PartialEq, Eq, Hash, Structural)]
pub enum EntityHeader {
    Allow,
    ContentEncoding,
    ContentLanguage,
    ContentLength,
    ContentLocation,
    ContentMD5,
    ContentRange,
    ContentType,
    Expires,
    LastModified,
}

impl EntityHeader {
    /// The name as it is written on the wire.
    pub open spec fn wire(self) -> Seq<char> {
        match self {
            Self::Allow => "Allow"@,
            Self::ContentEncoding => "Content-Encoding"@,
            Self::ContentLanguage => "Content-Language"@,
            Self::ContentLength => "Content-Length"@,
            Self::ContentLocation => "Content-Location"@,
            Self::ContentMD5 => "Content-MD5"@,
            Self::ContentRange => "Content-Range"@,
            Self::ContentType => "Content-Type"@,
            Self::Expires => "Expires"@,
            Self::LastModified => "Last-Modified"@,
        }
    }


    /// The name as it is written on the wire.
    pub fn to_string(&self) -> (s: String)
        ensures
            s@ == self.wire(),
    {
        match self {
            Self::Allow => String::from_str("Allow"),
            Self::ContentEncoding => String::from_str("Content-Encoding"),
            Self::ContentLanguage => String::from_str("Content-Language"),
            Self::ContentLength => String::from_str("Content-Length"),
            Self::ContentLocation => String::from_str("Content-Location"),
            Self::ContentMD5 => String::from_str("Content-MD5"),
            Self::ContentRange => String::from_str("Content-Range"),
            Self::ContentType => String::from_str("Content-Type"),
            Self::Expires => String::from_str("Expires"),
            Self::LastModified => String::from_str("Last-Modified"),
        }
    }
}

} // verus!
