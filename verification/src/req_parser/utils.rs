//! The grammar of a request head.
//!
//! Each function here reads one part of a head from bytes. The bytes of a head
//! are ASCII; a byte is read as the character of the same code point.
//!
//! Three things are computed outside this library and named here: what a
//! percent-encoded text decodes to, what Base64 decodes to, and what it
//! encodes to. Two more are read by the caller. A quality is a floating-point
//! number, and the caller hands in, for each spelling, the number that it was
//! read as. A body may be compressed, and the caller hands in what the decoder
//! made of it.

use crate::http_header::value::is_finite_bits;
use crate::http_header::value::finite_bits;
use crate::http_header::value::lemma_members_with_finite;
use crate::http_header::value::lemma_members_with_elements;
use crate::http_header::value::lemma_members_with_last;
use crate::http_header::value::lemma_members_with_sorted;
use crate::http_header::value::entry_wire;
use crate::http_header::value::members_wire;
use crate::http_header::value::parsed_wire;
use crate::text::bytes_of;
use crate::text::is_ascii_bytes;
use crate::text::lemma_ascii_each;
use crate::text::is_space;
use crate::text::lemma_bytes_of_add;
use crate::text::lemma_bytes_of_chars;
use crate::text::lemma_split_ends;
use crate::text::lemma_split_piece;
use crate::text::lemma_split_push;
use crate::text::lemma_split_single;
use crate::text::lemma_trim;
use crate::text::lemma_trim_identity;
use crate::http_header::value::members_finite;
use crate::http_header::value::members_sorted;
use crate::http_header::value::members_with;
use crate::http_header::value::mime_parsed;
use crate::http_header::value::MimeView;
use crate::http_header::value::HeaderValueView;
use crate::http_header::value::MemberNameView;
use crate::http_header::value::MemberValueView;
use crate::http_header::value::MembersView;
use crate::http_header::value::ParsedView;
use crate::http_header::value::SimpleValueView;
use crate::http_header::EntityHeader;
use crate::http_header::GeneralHeader;
use crate::http_header::HeaderNameView;
use crate::http_header::HeaderValue;
use crate::http_header::HeaderValueMemberName;
use crate::http_header::HeaderValueMemberValue;
use crate::http_header::HeaderValueMembers;
use crate::http_header::Mime;
use crate::http_header::ParsedHeaderValue;
use crate::http_header::ReqHeader;
use crate::http_header::ReqOnlyHeader;
use crate::http_header::SimpleHeaderValue;
use crate::http_req::ReqHead;
use crate::http_req::ReqPath;
use crate::http_req::ReqPathView;
use crate::http_req::ReqTarget;
use crate::http_req::ReqTargetView;
use crate::http_req::ReqVerb;
use crate::req_parser::FirstLineParsingError;
use crate::req_parser::HeaderParsingError;
use crate::req_parser::ReqHeadParsingError;
use crate::req_parser::SupportedEncoding;
use crate::text::chars_of;
use crate::text::chars_vec;
use crate::text::is_space_byte;
use crate::text::copy_range;
use crate::text::find_byte;
use crate::text::index_of;
use crate::text::lemma_chars_of_add;
use crate::text::lemma_split_three;
use crate::text::lemma_position_is;
use crate::text::lower;
use crate::text::lower_chars;
use crate::text::lower_bytes;
use crate::text::parse_number;
use crate::text::parse_number_bytes;
use crate::text::position;
use crate::text::split;
use crate::text::split_bytes;
use crate::text::str_eq;
use crate::text::string_of;
use crate::text::trim;
use crate::text::trim_bytes;
use crate::text::views;
use base64::Engine;
use vstd::prelude::*;
use vstd::utf8::decode_utf8;
use vstd::utf8::valid_utf8;

verus! {

/// What `urlencoding::decode` makes of a text: the text with each `%` and two
/// hexadecimal digits replaced by the byte they denote, read as UTF-8, or
/// nothing where the bytes are no UTF-8.
pub uninterp spec fn percent_decoded(encoded: Seq<char>) -> Option<Seq<char>>;

/// What the standard Base64 engine of the crate `base64` decodes the input
/// to, or nothing where it refuses the input.
pub uninterp spec fn base64_decoded(input: Seq<u8>) -> Option<Seq<u8>>;

/// What the standard Base64 engine of the crate `base64` encodes bytes to.
pub uninterp spec fn base64_encoded(input: Seq<u8>) -> Seq<char>;

/// Whether Base64 gives bytes back: what it encodes them to is ASCII, and
/// decodes to them.
pub open spec fn base64_returns(bytes: Seq<u8>) -> bool {
    &&& vstd::utf8::is_ascii_chars(base64_encoded(bytes))
    &&& base64_decoded(bytes_of(base64_encoded(bytes))) == Some(bytes)
}

/// Calls `urlencoding::decode`. The contract only names the outcome.
#[verifier::external_body]
fn percent_decode(encoded: &str) -> (r: Option<String>)
    ensures
        match r {
            Some(s) => percent_decoded(encoded@) == Some(s@),
            None => percent_decoded(encoded@) is None,
        },
{
    match urlencoding::decode(encoded) {
        Ok(s) => Some(s.into_owned()),
        Err(_) => None,
    }
}

/// Calls `decode` of `base64::prelude::BASE64_STANDARD`. The contract only
/// names the outcome.
#[verifier::external_body]
fn base64_decode(input: &[u8]) -> (r: Option<Vec<u8>>)
    ensures
        match r {
            Some(b) => base64_decoded(input@) == Some(b@),
            None => base64_decoded(input@) is None,
        },
{
    match base64::prelude::BASE64_STANDARD.decode(input) {
        Ok(b) => Some(b),
        Err(_) => None,
    }
}

/// Calls `encode` of `base64::prelude::BASE64_STANDARD`. The outcome is named;
/// of it the contract says what Base64 is for: it is written in ASCII, and the
/// same engine decodes it to the bytes that were encoded.
#[verifier::external_body]
pub(crate) fn base64_encode(input: &[u8]) -> (r: String)
    ensures
        r@ == base64_encoded(input@),
        vstd::utf8::is_ascii_chars(r@),
        base64_decoded(bytes_of(r@)) == Some(input@),
{
    base64::prelude::BASE64_STANDARD.encode(input)
}

/// Calls `String::from_utf8`: the bytes become a string exactly when they are
/// UTF-8, and the string then holds the characters that they encode.
#[verifier::external_body]
pub(crate) fn utf8_string(bytes: Vec<u8>) -> (r: Option<String>)
    ensures
        r is Some <==> valid_utf8(bytes@),
        r matches Some(s) ==> s@ == decode_utf8(bytes@),
{
    match String::from_utf8(bytes) {
        Ok(s) => Some(s),
        Err(_) => None,
    }
}

/// What reading one spelling as a floating-point number gave: the bit pattern
/// of the IEEE 754 single-format number, or nothing where the spelling is no
/// number.
#[derive(Debug, Clone, PartialEq, Eq)]
pub struct FloatReading {
    pub text: String,
    pub bits: Option<u32>,
}

/// Readings as characters.
pub type ReadingsView = Seq<(Seq<char>, Option<u32>)>;

/// The readings of a vector of readings.
pub open spec fn readings_view(v: Seq<FloatReading>) -> ReadingsView {
    Seq::new(v.len(), |i: int| (v[i].text@, v[i].bits))
}

/// The predicate "is a reading of `text`".
pub open spec fn is_reading_of(text: Seq<char>) -> spec_fn((Seq<char>, Option<u32>)) -> bool {
    |e: (Seq<char>, Option<u32>)| e.0 == text
}

/// The number that `text` was read as: what the first reading of `text` holds,
/// and nothing where `text` has no reading.
pub open spec fn reading_of(readings: ReadingsView, text: Seq<char>) -> Option<u32> {
    let i = position(readings, is_reading_of(text));
    if 0 <= i < readings.len() {
        readings[i].1
    } else {
        None
    }
}

/// Looks up the number that `text` was read as.
pub fn find_reading(readings: &Vec<FloatReading>, text: &str) -> (r: Option<u32>)
    ensures
        r == reading_of(readings_view(readings@), text@),
{
    let ghost view = readings_view(readings@);
    let mut i: usize = 0;
    while i < readings.len() && !str_eq(readings[i].text.as_str(), text)
        invariant
            i <= readings@.len(),
            view == readings_view(readings@),
            forall|k: int| 0 <= k < i ==> (#[trigger] view[k]).0 != text@,
        decreases readings@.len() - i,
    {
        i += 1;
    }
    proof {
        assert forall|k: int| 0 <= k < i implies !is_reading_of(text@)(#[trigger] view[k]) by {}
        if i < readings@.len() {
            assert(view[i as int].0 == readings@[i as int].text@);
        }
        lemma_position_is(view, is_reading_of(text@), i as int);
    }
    if i < readings.len() {
        readings[i].bits
    } else {
        None
    }
}

/// The verb that a token spells.
pub open spec fn verb_of(token: Seq<u8>) -> Option<ReqVerb> {
    let t = chars_of(token);
    if t == "GET"@ {
        Some(ReqVerb::Get)
    } else if t == "POST"@ {
        Some(ReqVerb::Post)
    } else if t == "PUT"@ {
        Some(ReqVerb::Put)
    } else if t == "PATCH"@ {
        Some(ReqVerb::Patch)
    } else if t == "DELETE"@ {
        Some(ReqVerb::Delete)
    } else {
        None
    }
}

/// Reads the verb of a request. The five verbs are spelled in upper case;
/// anything else is no verb.
pub fn parse_http_verb(verb: &[u8]) -> (r: Result<ReqVerb, ReqHeadParsingError>)
    ensures
        r == match verb_of(verb@) {
            Some(v) => Ok::<ReqVerb, ReqHeadParsingError>(v),
            None => Err(ReqHeadParsingError::FirstLine(FirstLineParsingError::InvalidVerb)),
        },
{
    let t = string_of(verb);
    if str_eq(t.as_str(), "GET") {
        Ok(ReqVerb::Get)
    } else if str_eq(t.as_str(), "POST") {
        Ok(ReqVerb::Post)
    } else if str_eq(t.as_str(), "PUT") {
        Ok(ReqVerb::Put)
    } else if str_eq(t.as_str(), "PATCH") {
        Ok(ReqVerb::Patch)
    } else if str_eq(t.as_str(), "DELETE") {
        Ok(ReqVerb::Delete)
    } else {
        Err(ReqHeadParsingError::FirstLine(FirstLineParsingError::InvalidVerb))
    }
}

/// The part of a target before its first `?`.
pub open spec fn target_path(token: Seq<u8>) -> Seq<u8> {
    token.take(index_of(token, 63))
}

/// The query of a target: what stands after its first `?`, up to the first
/// `#` after that. A target without `?` has the empty query.
pub open spec fn target_query(token: Seq<u8>) -> Seq<u8> {
    let i = index_of(token, 63);
    if 0 <= i < token.len() {
        let after = token.skip(i + 1);
        after.take(index_of(after, 35))
    } else {
        Seq::<u8>::empty()
    }
}

/// The path that a token denotes, given what the part before its query
/// decodes to: the token as it is, what it decodes to, and the query. A token
/// that does not decode is an error.
pub open spec fn path_target_of(token: Seq<u8>, decoded: Option<Seq<char>>) -> Result<
    ReqTargetView,
    ReqHeadParsingError,
> {
    match decoded {
        Some(decoded) => Ok(
            ReqTargetView::Path(
                ReqPathView {
                    original: chars_of(token),
                    decoded,
                    query: chars_of(target_query(token)),
                },
            ),
        ),
        None => Err(ReqHeadParsingError::FirstLine(FirstLineParsingError::InvalidTargetEncoding)),
    }
}

/// The target that a token denotes: `*` is every resource; any other token is
/// a path, whose part before the query must percent-decode.
pub open spec fn target_of(token: Seq<u8>) -> Result<ReqTargetView, ReqHeadParsingError> {
    if token == seq![42u8] {
        Ok(ReqTargetView::All)
    } else {
        path_target_of(token, percent_decoded(chars_of(target_path(token))))
    }
}

/// The part of a target before its first `?`, as a text.
pub fn encoded_path(target: &[u8]) -> (r: String)
    ensures
        r@ == chars_of(target_path(target@)),
{
    proof {
        assert(target@.skip(0) == target@);
    }
    let i = find_byte(target, 0, 63);
    let path = copy_range(target, 0, i);
    proof {
        assert(path@ =~= target_path(target@));
    }
    string_of(path.as_slice())
}

/// Makes the path of a request from its token and from what the part before
/// the query decoded to, or nothing where it did not decode.
pub fn path_target(target: &[u8], decoded: Option<String>) -> (r: Result<
    ReqTarget,
    ReqHeadParsingError,
>)
    ensures
        match path_target_of(
            target@,
            match decoded {
                Some(d) => Some(d@),
                None => None,
            },
        ) {
            Ok(t) => r matches Ok(x) && x@ == t,
            Err(e) => r matches Err(x) && x == e,
        },
{
    let decoded = match decoded {
        Some(d) => d,
        None => {
            return Err(
                ReqHeadParsingError::FirstLine(FirstLineParsingError::InvalidTargetEncoding),
            );
        },
    };
    proof {
        assert(target@.skip(0) == target@);
    }
    let i = find_byte(target, 0, 63);
    let query = if i < target.len() {
        let j = find_byte(target, i + 1, 35);
        let q = copy_range(target, i + 1, j);
        proof {
            let after = target@.skip(i + 1);
            assert(q@ =~= after.take(index_of(after, 35)));
        }
        q
    } else {
        Vec::new()
    };
    proof {
        assert(query@ =~= target_query(target@));
    }
    Ok(
        ReqTarget::Path(
            ReqPath { original: string_of(target), decoded, query: string_of(query.as_slice()) },
        ),
    )
}

/// Reads the target of a request.
pub fn parse_http_target(target: &[u8]) -> (r: Result<ReqTarget, ReqHeadParsingError>)
    ensures
        match target_of(target@) {
            Ok(t) => r matches Ok(x) && x@ == t,
            Err(e) => r matches Err(x) && x == e,
        },
{
    if target.len() == 1 && target[0] == 42 {
        proof {
            assert(target@ =~= seq![42u8]);
        }
        return Ok(ReqTarget::All);
    }
    proof {
        if target@ == seq![42u8] {
            assert(target@.len() == 1);
            assert(target@[0] == 42);
        }
    }
    let encoded = encoded_path(target);
    path_target(target, percent_decode(encoded.as_str()))
}

/// What a first line denotes: it must be three tokens with one space between
/// them, a verb, a target and the version.
pub open spec fn first_line_of(line: Seq<u8>) -> Result<
    (ReqVerb, ReqTargetView, Seq<char>),
    ReqHeadParsingError,
> {
    let tokens = split(line, 32);
    if tokens.len() != 3 {
        Err(ReqHeadParsingError::FirstLine(FirstLineParsingError::InvalidFieldCount))
    } else {
        match verb_of(tokens[0]) {
            None => Err(ReqHeadParsingError::FirstLine(FirstLineParsingError::InvalidVerb)),
            Some(verb) => match target_of(tokens[1]) {
                Err(e) => Err(e),
                Ok(target) => Ok((verb, target, chars_of(tokens[2]))),
            },
        }
    }
}

/// What is read from a first line spells the line: the verb, the target and
/// the version as they are written on the wire, with one space between them,
/// are the first line as it was received. So a first line that is written out
/// again and read again gives what it gave.
pub proof fn lemma_first_line_kept(line: Seq<u8>)
    requires
        first_line_of(line) is Ok,
    ensures
        ({
            let t = first_line_of(line).unwrap();
            t.0.wire() + seq![' '] + t.1.wire() + seq![' '] + t.2 == chars_of(line)
        }),
{
    let tokens = split(line, 32);
    let t = first_line_of(line).unwrap();
    lemma_split_three(line, 32u8);
    assert(t.0.wire() == chars_of(tokens[0]));
    assert(t.1.wire() == chars_of(tokens[1])) by {
        if tokens[1] == seq![42u8] {
            assert(chars_of(tokens[1]) =~= seq!['*']);
        }
    }
    let space = seq![32u8];
    assert(chars_of(space) =~= seq![' ']);
    lemma_chars_of_add(tokens[0], space);
    lemma_chars_of_add(tokens[0] + space, tokens[1]);
    lemma_chars_of_add(tokens[0] + space + tokens[1], space);
    lemma_chars_of_add(tokens[0] + space + tokens[1] + space, tokens[2]);
}

/// Reads the first line of a request, such as `GET /foo/bar HTTP/1.1`.
pub fn parse_first_line(line: &[u8]) -> (r: Result<
    (ReqVerb, ReqTarget, String),
    ReqHeadParsingError,
>)
    ensures
        match first_line_of(line@) {
            Ok(t) => r matches Ok(x) && x.0 == t.0 && x.1@ == t.1 && x.2@ == t.2,
            Err(e) => r matches Err(x) && x == e,
        },
{
    let tokens = split_bytes(line, 32);
    if tokens.len() != 3 {
        proof {
            assert(views(tokens@).len() == tokens@.len());
        }
        return Err(ReqHeadParsingError::FirstLine(FirstLineParsingError::InvalidFieldCount));
    }
    proof {
        assert(views(tokens@).len() == tokens@.len());
        assert(views(tokens@)[0] == tokens@[0]@);
        assert(views(tokens@)[1] == tokens@[1]@);
        assert(views(tokens@)[2] == tokens@[2]@);
    }
    let verb = match parse_http_verb(tokens[0].as_slice()) {
        Ok(v) => v,
        Err(e) => {
            return Err(e);
        },
    };
    let target = match parse_http_target(tokens[1].as_slice()) {
        Ok(t) => t,
        Err(e) => {
            return Err(e);
        },
    };
    Ok((verb, target, string_of(tokens[2].as_slice())))
}

/// How the atoms of a list are read.
#[derive(Debug, Clone, Copy, PartialEq, Eq, Structural)]
pub enum AtomKind {
    /// Each atom is a text.
    Plain,
    /// Each atom is a media type.
    Mime,
}

/// How the value of a header is read.
#[derive(Debug, Clone, Copy, PartialEq, Eq, Structural)]
pub enum ValueForm {
    /// The value is one text.
    Text,
    /// The value is one number.
    Number,
    /// The value is a list of atoms with members.
    List(AtomKind),
    /// The value is Basic credentials.
    Credentials,
}

/// The header that a lower-case name stands for, and the form of its value.
/// A name that is not listed stands for no header of the protocol.
pub open spec fn known_header(name: Seq<char>) -> Option<(HeaderNameView, ValueForm)> {
    if name == "cache-control"@ {
        Some((HeaderNameView::General(GeneralHeader::CacheControl), ValueForm::Text))
    } else if name == "connection"@ {
        Some((HeaderNameView::General(GeneralHeader::Connection), ValueForm::Text))
    } else if name == "date"@ {
        Some((HeaderNameView::General(GeneralHeader::Date), ValueForm::Text))
    } else if name == "trailer"@ {
        Some((HeaderNameView::General(GeneralHeader::Trailer), ValueForm::Text))
    } else if name == "transfer-encoding"@ {
        Some((HeaderNameView::General(GeneralHeader::TransferEncoding), ValueForm::Text))
    } else if name == "upgrade"@ {
        Some((HeaderNameView::General(GeneralHeader::Upgrade), ValueForm::Text))
    } else if name == "via"@ {
        Some((HeaderNameView::General(GeneralHeader::Via), ValueForm::Text))
    } else if name == "warning"@ {
        Some((HeaderNameView::General(GeneralHeader::Warning), ValueForm::Text))
    } else if name == "accept"@ {
        Some((HeaderNameView::ReqOnly(ReqOnlyHeader::Accept), ValueForm::List(AtomKind::Mime)))
    } else if name == "accept-charset"@ {
        Some((HeaderNameView::ReqOnly(ReqOnlyHeader::AcceptCharset), ValueForm::List(AtomKind::Plain)))
    } else if name == "accept-encoding"@ {
        Some((HeaderNameView::ReqOnly(ReqOnlyHeader::AcceptEncoding), ValueForm::List(AtomKind::Plain)))
    } else if name == "accept-language"@ {
        Some((HeaderNameView::ReqOnly(ReqOnlyHeader::AcceptLanguage), ValueForm::List(AtomKind::Plain)))
    } else if name == "authorization"@ {
        Some((HeaderNameView::ReqOnly(ReqOnlyHeader::Authorization), ValueForm::Credentials))
    } else if name == "expect"@ {
        Some((HeaderNameView::ReqOnly(ReqOnlyHeader::Expect), ValueForm::Text))
    } else if name == "from"@ {
        Some((HeaderNameView::ReqOnly(ReqOnlyHeader::From), ValueForm::Text))
    } else if name == "host"@ {
        Some((HeaderNameView::ReqOnly(ReqOnlyHeader::Host), ValueForm::Text))
    } else if name == "if-match"@ {
        Some((HeaderNameView::ReqOnly(ReqOnlyHeader::IfMatch), ValueForm::Text))
    } else if name == "if-modified-since"@ {
        Some((HeaderNameView::ReqOnly(ReqOnlyHeader::IfModifiedSince), ValueForm::Text))
    } else if name == "if-none-match"@ {
        Some((HeaderNameView::ReqOnly(ReqOnlyHeader::IfNoneMatch), ValueForm::Text))
    } else if name == "if-range"@ {
        Some((HeaderNameView::ReqOnly(ReqOnlyHeader::IfRange), ValueForm::Text))
    } else if name == "if-unmodified-since"@ {
        Some((HeaderNameView::ReqOnly(ReqOnlyHeader::IfUnmodifiedSince), ValueForm::Text))
    } else if name == "max-forwards"@ {
        Some((HeaderNameView::ReqOnly(ReqOnlyHeader::MaxForwards), ValueForm::Text))
    } else if name == "proxy-authorization"@ {
        Some((HeaderNameView::ReqOnly(ReqOnlyHeader::ProxyAuthorization), ValueForm::Text))
    } else if name == "range"@ {
        Some((HeaderNameView::ReqOnly(ReqOnlyHeader::Range), ValueForm::Text))
    } else if name == "referer"@ {
        Some((HeaderNameView::ReqOnly(ReqOnlyHeader::Referer), ValueForm::Text))
    } else if name == "te"@ {
        Some((HeaderNameView::ReqOnly(ReqOnlyHeader::TE), ValueForm::Text))
    } else if name == "user-agent"@ {
        Some((HeaderNameView::ReqOnly(ReqOnlyHeader::UserAgent), ValueForm::Text))
    } else if name == "allow"@ {
        Some((HeaderNameView::Entity(EntityHeader::Allow), ValueForm::Text))
    } else if name == "content-encoding"@ {
        Some((HeaderNameView::Entity(EntityHeader::ContentEncoding), ValueForm::List(AtomKind::Plain)))
    } else if name == "content-language"@ {
        Some((HeaderNameView::Entity(EntityHeader::ContentLanguage), ValueForm::List(AtomKind::Plain)))
    } else if name == "content-length"@ {
        Some((HeaderNameView::Entity(EntityHeader::ContentLength), ValueForm::Number))
    } else if name == "content-location"@ {
        Some((HeaderNameView::Entity(EntityHeader::ContentLocation), ValueForm::Text))
    } else if name == "content-md5"@ {
        Some((HeaderNameView::Entity(EntityHeader::ContentMD5), ValueForm::Text))
    } else if name == "content-range"@ {
        Some((HeaderNameView::Entity(EntityHeader::ContentRange), ValueForm::Text))
    } else if name == "content-type"@ {
        Some((HeaderNameView::Entity(EntityHeader::ContentType), ValueForm::Text))
    } else if name == "expires"@ {
        Some((HeaderNameView::Entity(EntityHeader::Expires), ValueForm::Text))
    } else if name == "last-modified"@ {
        Some((HeaderNameView::Entity(EntityHeader::LastModified), ValueForm::Text))
    } else {
        None
    }
}

/// Looks a lower-case name up among the headers of the protocol.
pub fn classify_header(name: &str) -> (r: Option<(ReqHeader, ValueForm)>)
    ensures
        match r {
            Some((h, form)) => known_header(name@) == Some((h@, form)),
            None => known_header(name@) is None,
        },
{
    if str_eq(name, "cache-control") {
        Some((ReqHeader::General(GeneralHeader::CacheControl), ValueForm::Text))
    } else if str_eq(name, "connection") {
        Some((ReqHeader::General(GeneralHeader::Connection), ValueForm::Text))
    } else if str_eq(name, "date") {
        Some((ReqHeader::General(GeneralHeader::Date), ValueForm::Text))
    } else if str_eq(name, "trailer") {
        Some((ReqHeader::General(GeneralHeader::Trailer), ValueForm::Text))
    } else if str_eq(name, "transfer-encoding") {
        Some((ReqHeader::General(GeneralHeader::TransferEncoding), ValueForm::Text))
    } else if str_eq(name, "upgrade") {
        Some((ReqHeader::General(GeneralHeader::Upgrade), ValueForm::Text))
    } else if str_eq(name, "via") {
        Some((ReqHeader::General(GeneralHeader::Via), ValueForm::Text))
    } else if str_eq(name, "warning") {
        Some((ReqHeader::General(GeneralHeader::Warning), ValueForm::Text))
    } else if str_eq(name, "accept") {
        Some((ReqHeader::ReqOnly(ReqOnlyHeader::Accept), ValueForm::List(AtomKind::Mime)))
    } else if str_eq(name, "accept-charset") {
        Some((ReqHeader::ReqOnly(ReqOnlyHeader::AcceptCharset), ValueForm::List(AtomKind::Plain)))
    } else if str_eq(name, "accept-encoding") {
        Some((ReqHeader::ReqOnly(ReqOnlyHeader::AcceptEncoding), ValueForm::List(AtomKind::Plain)))
    } else if str_eq(name, "accept-language") {
        Some((ReqHeader::ReqOnly(ReqOnlyHeader::AcceptLanguage), ValueForm::List(AtomKind::Plain)))
    } else if str_eq(name, "authorization") {
        Some((ReqHeader::ReqOnly(ReqOnlyHeader::Authorization), ValueForm::Credentials))
    } else if str_eq(name, "expect") {
        Some((ReqHeader::ReqOnly(ReqOnlyHeader::Expect), ValueForm::Text))
    } else if str_eq(name, "from") {
        Some((ReqHeader::ReqOnly(ReqOnlyHeader::From), ValueForm::Text))
    } else if str_eq(name, "host") {
        Some((ReqHeader::ReqOnly(ReqOnlyHeader::Host), ValueForm::Text))
    } else if str_eq(name, "if-match") {
        Some((ReqHeader::ReqOnly(ReqOnlyHeader::IfMatch), ValueForm::Text))
    } else if str_eq(name, "if-modified-since") {
        Some((ReqHeader::ReqOnly(ReqOnlyHeader::IfModifiedSince), ValueForm::Text))
    } else if str_eq(name, "if-none-match") {
        Some((ReqHeader::ReqOnly(ReqOnlyHeader::IfNoneMatch), ValueForm::Text))
    } else if str_eq(name, "if-range") {
        Some((ReqHeader::ReqOnly(ReqOnlyHeader::IfRange), ValueForm::Text))
    } else if str_eq(name, "if-unmodified-since") {
        Some((ReqHeader::ReqOnly(ReqOnlyHeader::IfUnmodifiedSince), ValueForm::Text))
    } else if str_eq(name, "max-forwards") {
        Some((ReqHeader::ReqOnly(ReqOnlyHeader::MaxForwards), ValueForm::Text))
    } else if str_eq(name, "proxy-authorization") {
        Some((ReqHeader::ReqOnly(ReqOnlyHeader::ProxyAuthorization), ValueForm::Text))
    } else if str_eq(name, "range") {
        Some((ReqHeader::ReqOnly(ReqOnlyHeader::Range), ValueForm::Text))
    } else if str_eq(name, "referer") {
        Some((ReqHeader::ReqOnly(ReqOnlyHeader::Referer), ValueForm::Text))
    } else if str_eq(name, "te") {
        Some((ReqHeader::ReqOnly(ReqOnlyHeader::TE), ValueForm::Text))
    } else if str_eq(name, "user-agent") {
        Some((ReqHeader::ReqOnly(ReqOnlyHeader::UserAgent), ValueForm::Text))
    } else if str_eq(name, "allow") {
        Some((ReqHeader::Entity(EntityHeader::Allow), ValueForm::Text))
    } else if str_eq(name, "content-encoding") {
        Some((ReqHeader::Entity(EntityHeader::ContentEncoding), ValueForm::List(AtomKind::Plain)))
    } else if str_eq(name, "content-language") {
        Some((ReqHeader::Entity(EntityHeader::ContentLanguage), ValueForm::List(AtomKind::Plain)))
    } else if str_eq(name, "content-length") {
        Some((ReqHeader::Entity(EntityHeader::ContentLength), ValueForm::Number))
    } else if str_eq(name, "content-location") {
        Some((ReqHeader::Entity(EntityHeader::ContentLocation), ValueForm::Text))
    } else if str_eq(name, "content-md5") {
        Some((ReqHeader::Entity(EntityHeader::ContentMD5), ValueForm::Text))
    } else if str_eq(name, "content-range") {
        Some((ReqHeader::Entity(EntityHeader::ContentRange), ValueForm::Text))
    } else if str_eq(name, "content-type") {
        Some((ReqHeader::Entity(EntityHeader::ContentType), ValueForm::Text))
    } else if str_eq(name, "expires") {
        Some((ReqHeader::Entity(EntityHeader::Expires), ValueForm::Text))
    } else if str_eq(name, "last-modified") {
        Some((ReqHeader::Entity(EntityHeader::LastModified), ValueForm::Text))
    } else {
        None
    }
}


/// The atom that a text denotes: the text itself, or the media type that it
/// spells.
pub open spec fn atom_of(kind: AtomKind, text: Seq<u8>) -> Result<
    SimpleValueView,
    ReqHeadParsingError,
> {
    match kind {
        AtomKind::Plain => Ok(SimpleValueView::Text(chars_of(text))),
        AtomKind::Mime => match mime_parsed(chars_of(text)) {
            Some(m) => Ok(SimpleValueView::Mime(m)),
            None => Err(ReqHeadParsingError::Header(HeaderParsingError::InvalidMime)),
        },
    }
}

/// Reads one atom.
pub fn parse_atom(kind: AtomKind, text: &[u8]) -> (r: Result<
    SimpleHeaderValue,
    ReqHeadParsingError,
>)
    ensures
        match atom_of(kind, text@) {
            Ok(a) => r matches Ok(x) && x@ == a,
            Err(e) => r matches Err(x) && x == e,
        },
{
    let t = string_of(text);
    match kind {
        AtomKind::Plain => Ok(SimpleHeaderValue::String(t)),
        AtomKind::Mime => match Mime::parse(t.as_str()) {
            Some(m) => Ok(SimpleHeaderValue::Mime(m)),
            None => Err(ReqHeadParsingError::Header(HeaderParsingError::InvalidMime)),
        },
    }
}

/// Whether a member name is the quality: in lower case it is `q`.
pub open spec fn is_quality_name(name: Seq<u8>) -> bool {
    lower(name) == seq![113u8]
}

/// The member that a part denotes. A part is `name` or `name=value`; more
/// than one `=` is an error. The value of a quality must have been read as a
/// finite number; any other member keeps its name and value as they are.
pub open spec fn member_of(part: Seq<u8>, readings: ReadingsView) -> Result<
    (MemberNameView, MemberValueView),
    ReqHeadParsingError,
> {
    let pieces = split(part, 61);
    if pieces.len() > 2 {
        Err(ReqHeadParsingError::Header(HeaderParsingError::InvalidMime))
    } else {
        let name = pieces[0];
        let value = if pieces.len() == 2 {
            pieces[1]
        } else {
            Seq::<u8>::empty()
        };
        if is_quality_name(name) {
            match reading_of(readings, chars_of(value)) {
                Some(bits) => if is_finite_bits(bits) {
                    Ok((MemberNameView::Quality, MemberValueView::Float(chars_of(value), bits)))
                } else {
                    Err(ReqHeadParsingError::Header(HeaderParsingError::InvalidFloat))
                },
                None => Err(ReqHeadParsingError::Header(HeaderParsingError::InvalidFloat)),
            }
        } else {
            Ok((MemberNameView::Other(chars_of(name)), MemberValueView::Other(chars_of(value))))
        }
    }
}

/// Tells whether a member name is the quality.
fn quality_name(name: &[u8]) -> (r: bool)
    ensures
        r == is_quality_name(name@),
{
    let l = lower_bytes(name);
    let r = l.len() == 1 && l[0] == 113;
    proof {
        if r {
            assert(l@ =~= seq![113u8]);
        }
    }
    r
}

/// Reads one member.
fn parse_member(part: &[u8], readings: &Vec<FloatReading>) -> (r: Result<
    (HeaderValueMemberName, HeaderValueMemberValue),
    ReqHeadParsingError,
>)
    ensures
        match member_of(part@, readings_view(readings@)) {
            Ok(m) => r matches Ok(x) && x.0@ == m.0 && x.1@ == m.1 && x.1.wf(),
            Err(e) => r matches Err(x) && x == e,
        },
{
    let pieces = split_bytes(part, 61);
    proof {
        assert(views(pieces@).len() == pieces@.len());
        assert(views(pieces@)[0] == pieces@[0]@);
    }
    if pieces.len() > 2 {
        return Err(ReqHeadParsingError::Header(HeaderParsingError::InvalidMime));
    }
    let value = if pieces.len() == 2 {
        proof {
            assert(views(pieces@)[1] == pieces@[1]@);
        }
        string_of(pieces[1].as_slice())
    } else {
        proof {
            assert(chars_of(Seq::<u8>::empty()) =~= Seq::<char>::empty());
        }
        String::new()
    };
    if quality_name(pieces[0].as_slice()) {
        match find_reading(readings, value.as_str()) {
            Some(bits) => if finite_bits(bits) {
                Ok((HeaderValueMemberName::Quality, HeaderValueMemberValue::Float(value, bits)))
            } else {
                Err(ReqHeadParsingError::Header(HeaderParsingError::InvalidFloat))
            },
            None => Err(ReqHeadParsingError::Header(HeaderParsingError::InvalidFloat)),
        }
    } else {
        Ok(
            (
                HeaderValueMemberName::Other(string_of(pieces[0].as_slice())),
                HeaderValueMemberValue::Other(value),
            ),
        )
    }
}

/// The members that a sequence of parts denotes: each part sets one member, in
/// turn, and the first part that is in error decides.
pub open spec fn members_of(parts: Seq<Seq<u8>>, readings: ReadingsView) -> Result<
    MembersView,
    ReqHeadParsingError,
>
    decreases parts.len(),
{
    if parts.len() == 0 {
        Ok(MembersView::empty())
    } else {
        match members_of(parts.drop_last(), readings) {
            Err(e) => Err(e),
            Ok(members) => match member_of(parts.last(), readings) {
                Err(e) => Err(e),
                Ok(m) => Ok(members_with(members, m.0, m.1)),
            },
        }
    }
}

/// An error among the first parts is the error of all parts.
proof fn lemma_members_error(parts: Seq<Seq<u8>>, readings: ReadingsView, i: int)
    requires
        0 <= i <= parts.len(),
        members_of(parts.take(i), readings) is Err,
    ensures
        members_of(parts, readings) == members_of(parts.take(i), readings),
    decreases parts.len() - i,
{
    if i < parts.len() {
        assert(parts.take(i + 1).drop_last() == parts.take(i));
        lemma_members_error(parts, readings, i + 1);
    } else {
        assert(parts.take(i) == parts);
    }
}

/// One atom with its members: the text is cut at each `;`, the first part is
/// the atom and each further part a member. The members are read first.
pub open spec fn entry_of(text: Seq<u8>, kind: AtomKind, readings: ReadingsView) -> Result<
    (SimpleValueView, MembersView),
    ReqHeadParsingError,
> {
    let parts = split(text, 59);
    match members_of(parts.skip(1), readings) {
        Err(e) => Err(e),
        Ok(members) => match atom_of(kind, parts[0]) {
            Err(e) => Err(e),
            Ok(atom) => Ok((atom, members)),
        },
    }
}

/// Reads one atom with its members.
pub fn parse_value_and_attr(value: &[u8], kind: AtomKind, readings: &Vec<FloatReading>) -> (r:
    Result<(SimpleHeaderValue, HeaderValueMembers), ReqHeadParsingError>)
    ensures
        match entry_of(value@, kind, readings_view(readings@)) {
            Ok(t) => r matches Ok(x) && x.0@ == t.0 && x.1@ == t.1,
            Err(e) => r matches Err(x) && x == e,
        },
{
    let parts = split_bytes(value, 59);
    let ghost all = split(value@, 59).skip(1);
    let ghost rv = readings_view(readings@);
    proof {
        assert(views(parts@).len() == parts@.len());
        assert(views(parts@)[0] == parts@[0]@);
        assert(all.take(0) =~= Seq::<Seq<u8>>::empty());
    }
    let mut members = HeaderValueMembers::new();
    let mut i: usize = 1;
    while i < parts.len()
        invariant
            1 <= i <= parts@.len(),
            views(parts@) == split(value@, 59),
            all == split(value@, 59).skip(1),
            rv == readings_view(readings@),
            members_of(all.take(i - 1), rv) == Ok::<MembersView, ReqHeadParsingError>(members@),
        decreases parts@.len() - i,
    {
        proof {
            assert(views(parts@).len() == parts@.len());
            assert(views(parts@)[i as int] == parts@[i as int]@);
            assert(all.take(i as int).drop_last() == all.take(i - 1));
            assert(all.take(i as int).last() == parts@[i as int]@);
        }
        match parse_member(parts[i].as_slice(), readings) {
            Ok(m) => {
                members.insert(m.0, m.1);
            },
            Err(e) => {
                proof {
                    assert(members_of(all.take(i as int), rv) == Err::<
                        MembersView,
                        ReqHeadParsingError,
                    >(e));
                    lemma_members_error(all, rv, i as int);
                }
                return Err(e);
            },
        }
        i += 1;
    }
    proof {
        assert(views(parts@).len() == parts@.len());
        assert(all.take(i - 1) == all);
    }
    match parse_atom(kind, parts[0].as_slice()) {
        Ok(atom) => Ok((atom, members)),
        Err(e) => Err(e),
    }
}

/// The atoms with members that a sequence of items denotes: each item is
/// trimmed and read, in turn, and the first item that is in error decides.
pub open spec fn entries_of(items: Seq<Seq<u8>>, kind: AtomKind, readings: ReadingsView) -> Result<
    ParsedView,
    ReqHeadParsingError,
>
    decreases items.len(),
{
    if items.len() == 0 {
        Ok(ParsedView::empty())
    } else {
        match entries_of(items.drop_last(), kind, readings) {
            Err(e) => Err(e),
            Ok(entries) => match entry_of(trim(items.last()), kind, readings) {
                Err(e) => Err(e),
                Ok(entry) => Ok(entries.push(entry)),
            },
        }
    }
}

/// An error among the first items is the error of all items.
proof fn lemma_entries_error(
    items: Seq<Seq<u8>>,
    kind: AtomKind,
    readings: ReadingsView,
    i: int,
)
    requires
        0 <= i <= items.len(),
        entries_of(items.take(i), kind, readings) is Err,
    ensures
        entries_of(items, kind, readings) == entries_of(items.take(i), kind, readings),
    decreases items.len() - i,
{
    if i < items.len() {
        assert(items.take(i + 1).drop_last() == items.take(i));
        lemma_entries_error(items, kind, readings, i + 1);
    } else {
        assert(items.take(i) == items);
    }
}

/// The list that a value denotes: the value is cut at each comma, and each
/// item, without the whitespace around it, is one atom with its members.
pub open spec fn header_value_of(value: Seq<u8>, kind: AtomKind, readings: ReadingsView) -> Result<
    HeaderValueView,
    ReqHeadParsingError,
> {
    match entries_of(split(value, 44), kind, readings) {
        Err(e) => Err(e),
        Ok(entries) => Ok(HeaderValueView::Parsed(entries)),
    }
}

/// Reads a value that is a list of atoms separated by commas.
pub fn parse_header_value(value: &[u8], kind: AtomKind, readings: &Vec<FloatReading>) -> (r:
    Result<HeaderValue, ReqHeadParsingError>)
    ensures
        match header_value_of(value@, kind, readings_view(readings@)) {
            Ok(v) => r matches Ok(x) && x@ == v,
            Err(e) => r matches Err(x) && x == e,
        },
{
    let items = split_bytes(value, 44);
    let ghost all = split(value@, 44);
    let ghost rv = readings_view(readings@);
    let mut entries: Vec<(SimpleHeaderValue, HeaderValueMembers)> = Vec::new();
    let mut i: usize = 0;
    proof {
        assert(views(items@).len() == items@.len());
        assert(all.take(0) =~= Seq::<Seq<u8>>::empty());
        assert(Seq::new(entries@.len(), |k: int| (entries@[k].0@, entries@[k].1@))
            =~= ParsedView::empty());
    }
    while i < items.len()
        invariant
            i <= items@.len(),
            views(items@) == all,
            all == split(value@, 44),
            all.len() == items@.len(),
            rv == readings_view(readings@),
            entries_of(all.take(i as int), kind, rv) == Ok::<ParsedView, ReqHeadParsingError>(
                Seq::new(entries@.len(), |k: int| (entries@[k].0@, entries@[k].1@)),
            ),
        decreases items@.len() - i,
    {
        proof {
            assert(views(items@)[i as int] == items@[i as int]@);
            assert(all.take(i + 1).drop_last() == all.take(i as int));
            assert(all.take(i + 1).last() == items@[i as int]@);
        }
        let item = trim_bytes(items[i].as_slice());
        let ghost before = Seq::new(entries@.len(), |k: int| (entries@[k].0@, entries@[k].1@));
        match parse_value_and_attr(item.as_slice(), kind, readings) {
            Ok(entry) => {
                let ghost e = (entry.0@, entry.1@);
                entries.push(entry);
                proof {
                    assert(Seq::new(entries@.len(), |k: int| (entries@[k].0@, entries@[k].1@))
                        =~= before.push(e));
                }
            },
            Err(e) => {
                proof {
                    assert(entries_of(all.take(i + 1), kind, rv) == Err::<
                        ParsedView,
                        ReqHeadParsingError,
                    >(e));
                    lemma_entries_error(all, kind, rv, i + 1);
                }
                return Err(e);
            },
        }
        i += 1;
    }
    proof {
        assert(all.take(i as int) == all);
    }
    Ok(HeaderValue::Parsed(ParsedHeaderValue(entries)))
}

/// Reads a value that is a list of texts.
pub fn parse_header_value_plain(value: &[u8], readings: &Vec<FloatReading>) -> (r: Result<
    HeaderValue,
    ReqHeadParsingError,
>)
    ensures
        match header_value_of(value@, AtomKind::Plain, readings_view(readings@)) {
            Ok(v) => r matches Ok(x) && x@ == v,
            Err(e) => r matches Err(x) && x == e,
        },
{
    parse_header_value(value, AtomKind::Plain, readings)
}

/// Reads a value that is a list of media types.
pub fn parse_header_value_mime(value: &[u8], readings: &Vec<FloatReading>) -> (r: Result<
    HeaderValue,
    ReqHeadParsingError,
>)
    ensures
        match header_value_of(value@, AtomKind::Mime, readings_view(readings@)) {
            Ok(v) => r matches Ok(x) && x@ == v,
            Err(e) => r matches Err(x) && x == e,
        },
{
    parse_header_value(value, AtomKind::Mime, readings)
}

/// The bytes of `Basic `, the word that Basic credentials begin with.
pub open spec fn basic_prefix() -> Seq<u8> {
    seq![66u8, 97u8, 115u8, 105u8, 99u8, 32u8]
}

/// The credentials that decoded bytes spell: the bytes must hold a colon; the
/// bytes before the first colon are the user and those after it the password,
/// and both must be UTF-8.
pub open spec fn credentials_in(bytes: Seq<u8>) -> Option<(Seq<char>, Seq<char>)> {
    let i = index_of(bytes, 58);
    if 0 <= i < bytes.len() && valid_utf8(bytes.take(i)) && valid_utf8(bytes.skip(i + 1)) {
        Some((decode_utf8(bytes.take(i)), decode_utf8(bytes.skip(i + 1))))
    } else {
        None
    }
}

/// The credentials that a value of `Authorization` denotes. The value must
/// begin with `Basic `; what follows must decode from Base64 to bytes that
/// spell credentials.
pub open spec fn credentials_of(value: Seq<u8>) -> Option<(Seq<char>, Seq<char>)> {
    if value.len() >= 6 && value.take(6) == basic_prefix() {
        match base64_decoded(value.skip(6)) {
            Some(bytes) => credentials_in(bytes),
            None => None,
        }
    } else {
        None
    }
}

/// Reads credentials from the bytes that Base64 decoded to.
pub fn credentials_from_decoded(bytes: Vec<u8>) -> (r: Result<HeaderValue, ReqHeadParsingError>)
    ensures
        match credentials_in(bytes@) {
            Some(c) => r matches Ok(x) && x@ == HeaderValueView::Credentials(c.0, c.1),
            None => r matches Err(x) && x == ReqHeadParsingError::Header(
                HeaderParsingError::InvalidBasicCredentials,
            ),
        },
{
    let bad = ReqHeadParsingError::Header(HeaderParsingError::InvalidBasicCredentials);
    proof {
        assert(bytes@.skip(0) == bytes@);
    }
    let i = find_byte(bytes.as_slice(), 0, 58);
    if i >= bytes.len() {
        return Err(bad);
    }
    let user_bytes = copy_range(bytes.as_slice(), 0, i);
    let password_bytes = copy_range(bytes.as_slice(), i + 1, bytes.len());
    proof {
        assert(user_bytes@ =~= bytes@.take(i as int));
        assert(password_bytes@ =~= bytes@.skip(i + 1));
    }
    let user = match utf8_string(user_bytes) {
        Some(s) => s,
        None => {
            return Err(bad);
        },
    };
    let password = match utf8_string(password_bytes) {
        Some(s) => s,
        None => {
            return Err(bad);
        },
    };
    Ok(HeaderValue::Credentials(user, password))
}

/// Reads a value of the header `Authorization`.
pub fn parse_authorization_header(value: &[u8]) -> (r: Result<HeaderValue, ReqHeadParsingError>)
    ensures
        match credentials_of(value@) {
            Some(c) => r matches Ok(x) && x@ == HeaderValueView::Credentials(c.0, c.1),
            None => r matches Err(x) && x == ReqHeadParsingError::Header(
                HeaderParsingError::InvalidBasicCredentials,
            ),
        },
{
    let bad = ReqHeadParsingError::Header(HeaderParsingError::InvalidBasicCredentials);
    if value.len() < 6 {
        return Err(bad);
    }
    if !(value[0] == 66 && value[1] == 97 && value[2] == 115 && value[3] == 105 && value[4] == 99
        && value[5] == 32) {
        proof {
            let p = value@.take(6);
            assert(p[0] == value@[0] && p[1] == value@[1] && p[2] == value@[2] && p[3] == value@[3]
                && p[4] == value@[4] && p[5] == value@[5]);
        }
        return Err(bad);
    }
    proof {
        assert(value@.take(6) =~= basic_prefix());
    }
    let token = copy_range(value, 6, value.len());
    proof {
        assert(token@ =~= value@.skip(6));
    }
    match base64_decode(token.as_slice()) {
        Some(bytes) => credentials_from_decoded(bytes),
        None => Err(bad),
    }
}

/// The header that a name and a value denote. The name is looked up in lower
/// case, so that its case does not count; a name that is not listed gives a
/// header of that name, spelled as it is, whose value is the text as it is.
pub open spec fn header_of(name: Seq<u8>, value: Seq<u8>, readings: ReadingsView) -> Result<
    (HeaderNameView, HeaderValueView),
    ReqHeadParsingError,
> {
    match known_header(chars_of(lower(name))) {
        None => Ok(
            (
                HeaderNameView::Other(chars_of(name)),
                HeaderValueView::Simple(SimpleValueView::Text(chars_of(value))),
            ),
        ),
        Some((h, form)) => match form {
            ValueForm::Text => Ok(
                (h, HeaderValueView::Simple(SimpleValueView::Text(chars_of(value)))),
            ),
            ValueForm::Number => match parse_number(value) {
                Some(n) => Ok((h, HeaderValueView::Simple(SimpleValueView::Number(n)))),
                None => Err(ReqHeadParsingError::Header(HeaderParsingError::NumberParsing)),
            },
            ValueForm::List(kind) => match header_value_of(value, kind, readings) {
                Ok(v) => Ok((h, v)),
                Err(e) => Err(e),
            },
            ValueForm::Credentials => match credentials_of(value) {
                Some(c) => Ok((h, HeaderValueView::Credentials(c.0, c.1))),
                None => Err(
                    ReqHeadParsingError::Header(HeaderParsingError::InvalidBasicCredentials),
                ),
            },
        },
    }
}

/// Reads one header from its name and its value.
pub fn parse_header(name: &[u8], value: &[u8], readings: &Vec<FloatReading>) -> (r: Result<
    (ReqHeader, HeaderValue),
    ReqHeadParsingError,
>)
    ensures
        match header_of(name@, value@, readings_view(readings@)) {
            Ok(t) => r matches Ok(x) && x.0@ == t.0 && x.1@ == t.1,
            Err(e) => r matches Err(x) && x == e,
        },
{
    let lowered = lower_bytes(name);
    let text = string_of(lowered.as_slice());
    match classify_header(text.as_str()) {
        None => Ok(
            (
                ReqHeader::Other(string_of(name)),
                HeaderValue::Simple(SimpleHeaderValue::String(string_of(value))),
            ),
        ),
        Some((h, form)) => match form {
            ValueForm::Text => Ok(
                (h, HeaderValue::Simple(SimpleHeaderValue::String(string_of(value)))),
            ),
            ValueForm::Number => match parse_number_bytes(value) {
                Some(n) => Ok((h, HeaderValue::Simple(SimpleHeaderValue::Number(n)))),
                None => Err(ReqHeadParsingError::Header(HeaderParsingError::NumberParsing)),
            },
            ValueForm::List(kind) => match parse_header_value(value, kind, readings) {
                Ok(v) => Ok((h, v)),
                Err(e) => Err(e),
            },
            ValueForm::Credentials => match parse_authorization_header(value) {
                Ok(v) => Ok((h, v)),
                Err(e) => Err(e),
            },
        },
    }
}

/// The encoding that an atom names.
pub open spec fn encoding_of(atom: SimpleValueView) -> Option<SupportedEncoding> {
    match atom {
        SimpleValueView::Text(t) => if t == "gzip"@ {
            Some(SupportedEncoding::Gzip)
        } else if t == "deflate"@ {
            Some(SupportedEncoding::Deflate)
        } else if t == "zstd"@ {
            Some(SupportedEncoding::Zstd)
        } else if t == "br"@ {
            Some(SupportedEncoding::Br)
        } else {
            None
        },
        _ => None,
    }
}

/// The predicate "names an encoding".
pub open spec fn names_encoding() -> spec_fn((SimpleValueView, MembersView)) -> bool {
    |e: (SimpleValueView, MembersView)| encoding_of(e.0) is Some
}

/// The encoding chosen from a list: that of the first atom that names one. An
/// empty list chooses nothing; a list in which no atom names an encoding is an
/// error.
pub open spec fn chosen_encoding(list: ParsedView) -> Result<
    Option<SupportedEncoding>,
    ReqHeadParsingError,
> {
    let i = position(list, names_encoding());
    if list.len() == 0 {
        Ok(None)
    } else if 0 <= i < list.len() {
        Ok(encoding_of(list[i].0))
    } else {
        Err(ReqHeadParsingError::NoSupportedEncoding)
    }
}

/// Tells which encoding an atom names.
fn atom_encoding(atom: &SimpleHeaderValue) -> (r: Option<SupportedEncoding>)
    ensures
        r == encoding_of(atom@),
{
    match atom {
        SimpleHeaderValue::String(s) => {
            if str_eq(s.as_str(), "gzip") {
                Some(SupportedEncoding::Gzip)
            } else if str_eq(s.as_str(), "deflate") {
                Some(SupportedEncoding::Deflate)
            } else if str_eq(s.as_str(), "zstd") {
                Some(SupportedEncoding::Zstd)
            } else if str_eq(s.as_str(), "br") {
                Some(SupportedEncoding::Br)
            } else {
                None
            }
        },
        _ => None,
    }
}

/// Chooses the encoding from a list of atoms.
pub fn extract_supported_encoding(v: &Vec<(SimpleHeaderValue, HeaderValueMembers)>) -> (r: Result<
    Option<SupportedEncoding>,
    ReqHeadParsingError,
>)
    ensures
        r == chosen_encoding(Seq::new(v@.len(), |k: int| (v@[k].0@, v@[k].1@))),
{
    let ghost list = Seq::new(v@.len(), |k: int| (v@[k].0@, v@[k].1@));
    let mut i: usize = 0;
    while i < v.len()
        invariant
            i <= v@.len(),
            list == Seq::new(v@.len(), |k: int| (v@[k].0@, v@[k].1@)),
            forall|k: int| 0 <= k < i ==> encoding_of((#[trigger] list[k]).0) is None,
        decreases v@.len() - i,
    {
        match atom_encoding(&v[i].0) {
            Some(e) => {
                proof {
                    assert forall|k: int| 0 <= k < i implies !names_encoding()(
                        #[trigger] list[k],
                    ) by {}
                    assert(list[i as int].0 == v@[i as int].0@);
                    lemma_position_is(list, names_encoding(), i as int);
                }
                return Ok(Some(e));
            },
            None => {
                proof {
                    assert(list[i as int].0 == v@[i as int].0@);
                }
            },
        }
        i += 1;
    }
    proof {
        assert forall|k: int| 0 <= k < i implies !names_encoding()(#[trigger] list[k]) by {}
        lemma_position_is(list, names_encoding(), i as int);
    }
    if v.len() == 0 {
        Ok(None)
    } else {
        Err(ReqHeadParsingError::NoSupportedEncoding)
    }
}

/// The decoder that the body of a request has to go through, given the value
/// of `Content-Encoding`. A body without that header, or whose header is no
/// list or an empty list, goes through none. A list that chooses gzip or
/// deflate names that decoder. Any other encoding is an error.
pub open spec fn body_decoder_of(encoding: Option<HeaderValueView>) -> Result<
    Option<SupportedEncoding>,
    ReqHeadParsingError,
> {
    match encoding {
        Some(HeaderValueView::Parsed(list)) => match chosen_encoding(list) {
            Err(e) => Err(e),
            Ok(None) => Ok(None),
            Ok(Some(SupportedEncoding::Gzip)) => Ok(Some(SupportedEncoding::Gzip)),
            Ok(Some(SupportedEncoding::Deflate)) => Ok(Some(SupportedEncoding::Deflate)),
            Ok(Some(_)) => Err(ReqHeadParsingError::NoSupportedEncoding),
        },
        _ => Ok(None),
    }
}

/// The body that the sender meant. `decoded` is what the decoder made of the
/// body, or nothing where it failed; it counts only where the body has to go
/// through a decoder, and then a decoder that failed is an error.
pub open spec fn decoded_body(
    encoding: Option<HeaderValueView>,
    body: Seq<u8>,
    decoded: Option<Seq<u8>>,
) -> Result<Seq<u8>, ReqHeadParsingError> {
    match body_decoder_of(encoding) {
        Err(e) => Err(e),
        Ok(None) => Ok(body),
        Ok(Some(_)) => match decoded {
            Some(b) => Ok(b),
            None => Err(ReqHeadParsingError::BodyDecoding),
        },
    }
}

/// Tells which decoder a body with this `Content-Encoding` has to go through.
pub fn body_decoder_for(encoding: Option<&HeaderValue>) -> (r: Result<
    Option<SupportedEncoding>,
    ReqHeadParsingError,
>)
    ensures
        r == body_decoder_of(
            match encoding {
                Some(v) => Some(v@),
                None => None,
            },
        ),
{
    match encoding {
        Some(HeaderValue::Parsed(list)) => {
            proof {
                assert(list@ =~= Seq::new(list.0@.len(), |k: int| (list.0@[k].0@, list.0@[k].1@)));
            }
            match extract_supported_encoding(&list.0) {
                Err(e) => Err(e),
                Ok(None) => Ok(None),
                Ok(Some(SupportedEncoding::Gzip)) => Ok(Some(SupportedEncoding::Gzip)),
                Ok(Some(SupportedEncoding::Deflate)) => Ok(Some(SupportedEncoding::Deflate)),
                Ok(Some(_)) => Err(ReqHeadParsingError::NoSupportedEncoding),
            }
        },
        _ => Ok(None),
    }
}

/// Tells which decoder the body of a request has to go through.
pub fn body_decoder(req_head: &ReqHead) -> (r: Result<
    Option<SupportedEncoding>,
    ReqHeadParsingError,
>)
    ensures
        r == body_decoder_of(
            crate::http_header::headers_get(
                req_head@.headers,
                HeaderNameView::Entity(EntityHeader::ContentEncoding),
            ),
        ),
{
    body_decoder_for(req_head.body_encoding())
}

/// The body of a request as the sender meant it. `decoded` is what the
/// decoder that the head asks for made of `body`, or nothing where it failed
/// or where the head asks for none.
pub fn decode_req_body(req_head: &ReqHead, body: Vec<u8>, decoded: Option<Vec<u8>>) -> (r: Result<
    Vec<u8>,
    ReqHeadParsingError,
>)
    ensures
        match decoded_body(
            crate::http_header::headers_get(
                req_head@.headers,
                HeaderNameView::Entity(EntityHeader::ContentEncoding),
            ),
            body@,
            match decoded {
                Some(b) => Some(b@),
                None => None,
            },
        ) {
            Ok(b) => r matches Ok(x) && x@ == b,
            Err(e) => r matches Err(x) && x == e,
        },
{
    match body_decoder(req_head) {
        Err(e) => Err(e),
        Ok(None) => Ok(body),
        Ok(Some(_)) => match decoded {
            Some(b) => Ok(b),
            None => Err(ReqHeadParsingError::BodyDecoding),
        },
    }
}

/// The views of a sequence of strings.
pub open spec fn texts(v: Seq<String>) -> Seq<Seq<char>> {
    Seq::new(v.len(), |i: int| v[i]@)
}

/// The spelling of the quality that a part holds: the value of a part that is
/// a quality with at most one `=`.
pub open spec fn part_quality(part: Seq<u8>) -> Option<Seq<char>> {
    let pieces = split(part, 61);
    if pieces.len() <= 2 && is_quality_name(pieces[0]) {
        Some(
            chars_of(
                if pieces.len() == 2 {
                    pieces[1]
                } else {
                    Seq::<u8>::empty()
                },
            ),
        )
    } else {
        None
    }
}

/// The spellings of the qualities among the parts, in order.
pub open spec fn parts_qualities(parts: Seq<Seq<u8>>) -> Seq<Seq<char>>
    decreases parts.len(),
{
    if parts.len() == 0 {
        Seq::<Seq<char>>::empty()
    } else {
        parts_qualities(parts.drop_last()) + match part_quality(parts.last()) {
            Some(t) => seq![t],
            None => Seq::<Seq<char>>::empty(),
        }
    }
}

/// The spellings of the qualities among the members of the items, in order.
pub open spec fn items_qualities(items: Seq<Seq<u8>>) -> Seq<Seq<char>>
    decreases items.len(),
{
    if items.len() == 0 {
        Seq::<Seq<char>>::empty()
    } else {
        items_qualities(items.drop_last()) + parts_qualities(
            split(trim(items.last()), 59).skip(1),
        )
    }
}

/// The spellings of the qualities in a value that is a list: those that have
/// to be read as numbers before the value can be read.
pub open spec fn quality_texts_of(value: Seq<u8>) -> Seq<Seq<char>> {
    items_qualities(split(value, 44))
}

/// Appends the spellings of the qualities in a value that is a list.
pub fn push_quality_texts(out: &mut Vec<String>, value: &[u8])
    ensures
        texts(final(out)@) == texts(old(out)@) + quality_texts_of(value@),
{
    let items = split_bytes(value, 44);
    let ghost all = split(value@, 44);
    let ghost start = texts(out@);
    let mut i: usize = 0;
    proof {
        assert(views(items@).len() == items@.len());
        assert(all.take(0) =~= Seq::<Seq<u8>>::empty());
        assert(start + items_qualities(all.take(0)) =~= start);
    }
    while i < items.len()
        invariant
            i <= items@.len(),
            views(items@) == all,
            all.len() == items@.len(),
            texts(out@) == start + items_qualities(all.take(i as int)),
        decreases items@.len() - i,
    {
        proof {
            assert(views(items@)[i as int] == items@[i as int]@);
            assert(all.take(i + 1).drop_last() == all.take(i as int));
            assert(all.take(i + 1).last() == items@[i as int]@);
        }
        let item = trim_bytes(items[i].as_slice());
        let parts = split_bytes(item.as_slice(), 59);
        let ghost rest = split(item@, 59).skip(1);
        let ghost before = texts(out@);
        let mut j: usize = 1;
        proof {
            assert(views(parts@).len() == parts@.len());
            assert(rest.take(0) =~= Seq::<Seq<u8>>::empty());
            assert(before + parts_qualities(rest.take(0)) =~= before);
        }
        while j < parts.len()
            invariant
                1 <= j <= parts@.len(),
                views(parts@) == split(item@, 59),
                rest == split(item@, 59).skip(1),
                texts(out@) == before + parts_qualities(rest.take(j - 1)),
            decreases parts@.len() - j,
        {
            proof {
                assert(views(parts@).len() == parts@.len());
                assert(views(parts@)[j as int] == parts@[j as int]@);
                assert(rest.take(j as int).drop_last() == rest.take(j - 1));
                assert(rest.take(j as int).last() == parts@[j as int]@);
            }
            let pieces = split_bytes(parts[j].as_slice(), 61);
            proof {
                assert(views(pieces@).len() == pieces@.len());
                assert(views(pieces@)[0] == pieces@[0]@);
            }
            let ghost sofar = texts(out@);
            if pieces.len() <= 2 && quality_name(pieces[0].as_slice()) {
                let text = if pieces.len() == 2 {
                    proof {
                        assert(views(pieces@)[1] == pieces@[1]@);
                    }
                    string_of(pieces[1].as_slice())
                } else {
                    proof {
                        assert(chars_of(Seq::<u8>::empty()) =~= Seq::<char>::empty());
                    }
                    String::new()
                };
                let ghost t = text@;
                out.push(text);
                proof {
                    assert(texts(out@) =~= sofar + seq![t]);
                    assert(texts(out@) =~= before + parts_qualities(rest.take(j as int)));
                }
            } else {
                proof {
                    assert(sofar + Seq::<Seq<char>>::empty() =~= sofar);
                    assert(texts(out@) =~= before + parts_qualities(rest.take(j as int)));
                }
            }
            j += 1;
        }
        proof {
            assert(views(parts@).len() == parts@.len());
            assert(rest.take(j - 1) == rest);
            assert(texts(out@) =~= start + items_qualities(all.take(i + 1)));
        }
        i += 1;
    }
    proof {
        assert(all.take(i as int) == all);
    }
}

/// The spellings of the qualities in a value that is a list.
pub fn quality_texts(value: &[u8]) -> (r: Vec<String>)
    ensures
        texts(r@) == quality_texts_of(value@),
{
    let mut out: Vec<String> = Vec::new();
    push_quality_texts(&mut out, value);
    proof {
        assert(texts(Seq::<String>::empty()) + quality_texts_of(value@) =~= quality_texts_of(
            value@,
        ));
    }
    out
}


/// Whether two sets of readings give the same number for each of the
/// spellings.
pub open spec fn readings_agree(a: ReadingsView, b: ReadingsView, spellings: Seq<Seq<char>>) -> bool {
    forall|i: int|
        0 <= i < spellings.len() ==> reading_of(a, #[trigger] spellings[i]) == reading_of(
            b,
            spellings[i],
        )
}

/// Readings that agree on spellings agree on the first of them and on the
/// rest of them.
proof fn lemma_agree_parts(
    a: ReadingsView,
    b: ReadingsView,
    first: Seq<Seq<char>>,
    rest: Seq<Seq<char>>,
)
    requires
        readings_agree(a, b, first + rest),
    ensures
        readings_agree(a, b, first),
        readings_agree(a, b, rest),
{
    let all = first + rest;
    assert forall|i: int| 0 <= i < first.len() implies reading_of(a, #[trigger] first[i])
        == reading_of(b, first[i]) by {
        assert(all[i] == first[i]);
    }
    assert forall|i: int| 0 <= i < rest.len() implies reading_of(a, #[trigger] rest[i])
        == reading_of(b, rest[i]) by {
        assert(all[first.len() + i] == rest[i]);
    }
}

/// The members of parts depend on the readings only through the qualities
/// among the parts.
proof fn lemma_members_readings(parts: Seq<Seq<u8>>, a: ReadingsView, b: ReadingsView)
    requires
        readings_agree(a, b, parts_qualities(parts)),
    ensures
        members_of(parts, a) == members_of(parts, b),
    decreases parts.len(),
{
    if parts.len() > 0 {
        let last = match part_quality(parts.last()) {
            Some(t) => seq![t],
            None => Seq::<Seq<char>>::empty(),
        };
        lemma_agree_parts(a, b, parts_qualities(parts.drop_last()), last);
        lemma_members_readings(parts.drop_last(), a, b);
        if part_quality(parts.last()) is Some {
            assert(last[0] == part_quality(parts.last()).unwrap());
        }
    }
}

/// The atoms of items depend on the readings only through the qualities
/// among the items.
proof fn lemma_entries_readings(
    items: Seq<Seq<u8>>,
    kind: AtomKind,
    a: ReadingsView,
    b: ReadingsView,
)
    requires
        readings_agree(a, b, items_qualities(items)),
    ensures
        entries_of(items, kind, a) == entries_of(items, kind, b),
    decreases items.len(),
{
    if items.len() > 0 {
        let parts = split(trim(items.last()), 59).skip(1);
        lemma_agree_parts(a, b, items_qualities(items.drop_last()), parts_qualities(parts));
        lemma_entries_readings(items.drop_last(), kind, a, b);
        lemma_members_readings(parts, a, b);
    }
}

/// Reading a list looks at the readings of the spellings that
/// `quality_texts_of` names, and at no other: two sets of readings that agree
/// on them give the same list, or the same error.
pub proof fn lemma_value_readings(value: Seq<u8>, kind: AtomKind, a: ReadingsView, b: ReadingsView)
    requires
        readings_agree(a, b, quality_texts_of(value)),
    ensures
        header_value_of(value, kind, a) == header_value_of(value, kind, b),
{
    lemma_entries_readings(split(value, 44), kind, a, b);
}


/// The members that parts denote stand in the order of their names, each name
/// once, and every number among them is finite.
proof fn lemma_members_kept(parts: Seq<Seq<u8>>, readings: ReadingsView)
    ensures
        members_of(parts, readings) matches Ok(m) ==> members_sorted(m) && members_finite(m),
    decreases parts.len(),
{
    if parts.len() > 0 {
        lemma_members_kept(parts.drop_last(), readings);
        match (members_of(parts.drop_last(), readings), member_of(parts.last(), readings)) {
            (Ok(before), Ok(m)) => {
                lemma_members_with_sorted(before, m.0, m.1);
                lemma_members_with_finite(before, m.0, m.1);
            },
            _ => {},
        }
    }
}

/// The atoms that items denote each hold their members in the order of the
/// names, each name once, with finite numbers only.
proof fn lemma_entries_kept(items: Seq<Seq<u8>>, kind: AtomKind, readings: ReadingsView)
    ensures
        entries_of(items, kind, readings) matches Ok(list) ==> forall|i: int|
            0 <= i < list.len() ==> members_sorted((#[trigger] list[i]).1) && members_finite(
                list[i].1,
            ),
    decreases items.len(),
{
    if items.len() > 0 {
        lemma_entries_kept(items.drop_last(), kind, readings);
        lemma_members_kept(split(trim(items.last()), 59).skip(1), readings);
    }
}

/// A list that was read holds, for each atom, the members in the order of
/// their names, each name once, and every number among them is finite.
pub proof fn lemma_value_kept(value: Seq<u8>, kind: AtomKind, readings: ReadingsView)
    ensures
        header_value_of(value, kind, readings) matches Ok(HeaderValueView::Parsed(list))
            ==> forall|i: int|
            0 <= i < list.len() ==> members_sorted((#[trigger] list[i]).1) && members_finite(
                list[i].1,
            ),
{
    lemma_entries_kept(split(value, 44), kind, readings);
}


/// The names that are looked up are the lower-case forms of the spellings on
/// the wire: a name that stands for a header of the protocol is what the
/// header is written as, in lower case.
pub proof fn lemma_known_names(name: Seq<char>)
    ensures
        known_header(name) matches Some(k) ==> lower_chars(k.0.wire()) == name,
{
    reveal_strlit("Cache-Control");
    reveal_strlit("cache-control");
    assert(lower_chars("Cache-Control"@) =~= "cache-control"@);
    reveal_strlit("Connection");
    reveal_strlit("connection");
    assert(lower_chars("Connection"@) =~= "connection"@);
    reveal_strlit("Date");
    reveal_strlit("date");
    assert(lower_chars("Date"@) =~= "date"@);
    reveal_strlit("Trailer");
    reveal_strlit("trailer");
    assert(lower_chars("Trailer"@) =~= "trailer"@);
    reveal_strlit("Transfer-Encoding");
    reveal_strlit("transfer-encoding");
    assert(lower_chars("Transfer-Encoding"@) =~= "transfer-encoding"@);
    reveal_strlit("Upgrade");
    reveal_strlit("upgrade");
    assert(lower_chars("Upgrade"@) =~= "upgrade"@);
    reveal_strlit("Via");
    reveal_strlit("via");
    assert(lower_chars("Via"@) =~= "via"@);
    reveal_strlit("Warning");
    reveal_strlit("warning");
    assert(lower_chars("Warning"@) =~= "warning"@);
    reveal_strlit("Accept");
    reveal_strlit("accept");
    assert(lower_chars("Accept"@) =~= "accept"@);
    reveal_strlit("Accept-Charset");
    reveal_strlit("accept-charset");
    assert(lower_chars("Accept-Charset"@) =~= "accept-charset"@);
    reveal_strlit("Accept-Encoding");
    reveal_strlit("accept-encoding");
    assert(lower_chars("Accept-Encoding"@) =~= "accept-encoding"@);
    reveal_strlit("Accept-Language");
    reveal_strlit("accept-language");
    assert(lower_chars("Accept-Language"@) =~= "accept-language"@);
    reveal_strlit("Authorization");
    reveal_strlit("authorization");
    assert(lower_chars("Authorization"@) =~= "authorization"@);
    reveal_strlit("Expect");
    reveal_strlit("expect");
    assert(lower_chars("Expect"@) =~= "expect"@);
    reveal_strlit("From");
    reveal_strlit("from");
    assert(lower_chars("From"@) =~= "from"@);
    reveal_strlit("Host");
    reveal_strlit("host");
    assert(lower_chars("Host"@) =~= "host"@);
    reveal_strlit("If-Match");
    reveal_strlit("if-match");
    assert(lower_chars("If-Match"@) =~= "if-match"@);
    reveal_strlit("If-Modified-Since");
    reveal_strlit("if-modified-since");
    assert(lower_chars("If-Modified-Since"@) =~= "if-modified-since"@);
    reveal_strlit("If-None-Match");
    reveal_strlit("if-none-match");
    assert(lower_chars("If-None-Match"@) =~= "if-none-match"@);
    reveal_strlit("If-Range");
    reveal_strlit("if-range");
    assert(lower_chars("If-Range"@) =~= "if-range"@);
    reveal_strlit("If-Unmodified-Since");
    reveal_strlit("if-unmodified-since");
    assert(lower_chars("If-Unmodified-Since"@) =~= "if-unmodified-since"@);
    reveal_strlit("Max-Forwards");
    reveal_strlit("max-forwards");
    assert(lower_chars("Max-Forwards"@) =~= "max-forwards"@);
    reveal_strlit("Proxy-Authorization");
    reveal_strlit("proxy-authorization");
    assert(lower_chars("Proxy-Authorization"@) =~= "proxy-authorization"@);
    reveal_strlit("Range");
    reveal_strlit("range");
    assert(lower_chars("Range"@) =~= "range"@);
    reveal_strlit("Referer");
    reveal_strlit("referer");
    assert(lower_chars("Referer"@) =~= "referer"@);
    reveal_strlit("TE");
    reveal_strlit("te");
    assert(lower_chars("TE"@) =~= "te"@);
    reveal_strlit("User-Agent");
    reveal_strlit("user-agent");
    assert(lower_chars("User-Agent"@) =~= "user-agent"@);
    reveal_strlit("Allow");
    reveal_strlit("allow");
    assert(lower_chars("Allow"@) =~= "allow"@);
    reveal_strlit("Content-Encoding");
    reveal_strlit("content-encoding");
    assert(lower_chars("Content-Encoding"@) =~= "content-encoding"@);
    reveal_strlit("Content-Language");
    reveal_strlit("content-language");
    assert(lower_chars("Content-Language"@) =~= "content-language"@);
    reveal_strlit("Content-Length");
    reveal_strlit("content-length");
    assert(lower_chars("Content-Length"@) =~= "content-length"@);
    reveal_strlit("Content-Location");
    reveal_strlit("content-location");
    assert(lower_chars("Content-Location"@) =~= "content-location"@);
    reveal_strlit("Content-MD5");
    reveal_strlit("content-md5");
    assert(lower_chars("Content-MD5"@) =~= "content-md5"@);
    reveal_strlit("Content-Range");
    reveal_strlit("content-range");
    assert(lower_chars("Content-Range"@) =~= "content-range"@);
    reveal_strlit("Content-Type");
    reveal_strlit("content-type");
    assert(lower_chars("Content-Type"@) =~= "content-type"@);
    reveal_strlit("Expires");
    reveal_strlit("expires");
    assert(lower_chars("Expires"@) =~= "expires"@);
    reveal_strlit("Last-Modified");
    reveal_strlit("last-modified");
    assert(lower_chars("Last-Modified"@) =~= "last-modified"@);
}


/// A member as it is written, as bytes: the name, `=` and the value.
pub open spec fn member_bytes(m: (MemberNameView, MemberValueView)) -> Seq<u8> {
    bytes_of(m.0.wire() + seq!['='] + m.1.wire())
}

/// A member that was read is read again as the same member once it is
/// written out. What is written holds, besides `=` and `q`, only bytes of
/// what was read, and ends as that ended unless it ends in `=`.
proof fn lemma_member_reread(part: Seq<u8>, readings: ReadingsView)
    requires
        member_of(part, readings) is Ok,
    ensures
        ({
            let m = member_of(part, readings).unwrap();
            let w = member_bytes(m);
            &&& member_of(w, readings) == Ok::<
                (MemberNameView, MemberValueView),
                ReqHeadParsingError,
            >(m)
            &&& w.len() > 0
            &&& forall|k: int|
                0 <= k < w.len() ==> #[trigger] w[k] == 61 || w[k] == 113 || part.contains(w[k])
            &&& (part.len() == 0 || !is_space(part.last())) ==> !is_space(w.last())
        }),
{
    let m = member_of(part, readings).unwrap();
    let w = member_bytes(m);
    let pieces = split(part, 61);
    lemma_split_ends(part, 61u8);
    lemma_split_piece(part, 61u8, 0);
    let name = pieces[0];
    let value = if pieces.len() == 2 {
        pieces[1]
    } else {
        Seq::<u8>::empty()
    };
    if pieces.len() == 2 {
        lemma_split_piece(part, 61u8, 1);
        assert(pieces.last() == pieces[1]);
    }
    let written = if is_quality_name(name) {
        seq![113u8]
    } else {
        name
    };
    lemma_bytes_of_chars(name);
    lemma_bytes_of_chars(value);
    assert(bytes_of(seq!['q']) =~= seq![113u8]);
    assert(bytes_of(seq!['=']) =~= seq![61u8]);
    lemma_bytes_of_add(m.0.wire(), seq!['=']);
    lemma_bytes_of_add(m.0.wire() + seq!['='], m.1.wire());
    assert(w == written + seq![61u8] + value);
    assert(!written.contains(61u8)) by {
        if is_quality_name(name) {
            if written.contains(61u8) {
                let k = choose|k: int| 0 <= k < written.len() && written[k] == 61u8;
            }
        }
    }
    lemma_split_single(written, 61u8);
    lemma_split_push(written, 61u8, value);
    assert(split(w, 61) == seq![written, value]);
    assert(is_quality_name(written) == is_quality_name(name)) by {
        if is_quality_name(name) {
            assert(lower(seq![113u8]) =~= seq![113u8]);
        }
    }
    lemma_bytes_of_chars(value);
    assert forall|k: int| 0 <= k < w.len() implies #[trigger] w[k] == 61 || w[k] == 113
        || part.contains(w[k]) by {
        if k < written.len() {
            assert(w[k] == written[k]);
            if !is_quality_name(name) {
                assert(part.contains(name[k]));
            }
        } else if k > written.len() {
            assert(w[k] == value[k - written.len() - 1]);
            assert(part.contains(pieces[1][k - written.len() - 1]));
        }
    }
    if value.len() > 0 {
        assert(w.last() == value.last());
    } else {
        assert(w.last() == 61u8);
    }
}

/// An atom with its members as it is written, as bytes.
pub open spec fn entry_bytes(e: (SimpleValueView, MembersView)) -> Seq<u8> {
    bytes_of(entry_wire(e.0, e.1))
}

/// A list as it is written, as bytes.
pub open spec fn list_bytes(list: ParsedView) -> Seq<u8> {
    bytes_of(parsed_wire(list))
}

/// The members as they are written, one by one, as bytes.
pub open spec fn members_bytes(ms: MembersView) -> Seq<Seq<u8>> {
    Seq::new(ms.len(), |j: int| member_bytes(ms[j]))
}

/// Every member that parts denote is the member that one of the parts
/// denotes.
proof fn lemma_members_from_parts(parts: Seq<Seq<u8>>, readings: ReadingsView, j: int)
    requires
        members_of(parts, readings) is Ok,
        0 <= j < members_of(parts, readings).unwrap().len(),
    ensures
        exists|p: int|
            0 <= p < parts.len() && member_of(#[trigger] parts[p], readings) == Ok::<
                (MemberNameView, MemberValueView),
                ReqHeadParsingError,
            >(members_of(parts, readings).unwrap()[j]),
    decreases parts.len(),
{
    let ms = members_of(parts, readings).unwrap();
    let front = parts.drop_last();
    let before = members_of(front, readings).unwrap();
    let m = member_of(parts.last(), readings).unwrap();
    lemma_members_with_elements(before, m.0, m.1);
    if ms[j] == m {
        assert(parts[parts.len() - 1] == parts.last());
    } else {
        assert(before.contains(ms[j]));
        let i = choose|i: int| 0 <= i < before.len() && before[i] == ms[j];
        lemma_members_from_parts(front, readings, i);
        let p = choose|p: int|
            0 <= p < front.len() && member_of(#[trigger] front[p], readings) == Ok::<
                (MemberNameView, MemberValueView),
                ReqHeadParsingError,
            >(before[i]);
        assert(parts[p] == front[p]);
    }
}

/// Members in the order of their names, each read again as itself from what
/// it is written as, are read again as they are.
proof fn lemma_members_reread(ms: MembersView, readings: ReadingsView, n: int)
    requires
        0 <= n <= ms.len(),
        members_sorted(ms),
        forall|j: int|
            0 <= j < ms.len() ==> member_of(member_bytes(#[trigger] ms[j]), readings) == Ok::<
                (MemberNameView, MemberValueView),
                ReqHeadParsingError,
            >(ms[j]),
    ensures
        members_of(members_bytes(ms).take(n), readings) == Ok::<MembersView, ReqHeadParsingError>(
            ms.take(n),
        ),
    decreases n,
{
    let written = members_bytes(ms).take(n);
    if n == 0 {
        assert(ms.take(0) =~= MembersView::empty());
        assert(written =~= Seq::<Seq<u8>>::empty());
    } else {
        lemma_members_reread(ms, readings, n - 1);
        assert(written.drop_last() =~= members_bytes(ms).take(n - 1));
        assert(written.last() == member_bytes(ms[n - 1]));
        let before = ms.take(n - 1);
        assert forall|i: int| 0 <= i < before.len() implies (#[trigger] before[i]).0.lt(
            ms[n - 1].0,
        ) by {
            assert(before[i] == ms[i]);
            assert(ms[i].0.lt(ms[n - 1].0));
        }
        lemma_members_with_last(before, ms[n - 1].0, ms[n - 1].1);
        assert(before.push(ms[n - 1]) =~= ms.take(n));
    }
}

/// The first members as they are written behind an atom split at the
/// semicolons into the atom and the members one by one, where neither the
/// atom nor a member as it is written holds a semicolon.
proof fn lemma_members_written(atom: Seq<u8>, ms: MembersView, n: int)
    requires
        1 <= n <= ms.len(),
        !atom.contains(59u8),
        forall|j: int| 0 <= j < ms.len() ==> !member_bytes(#[trigger] ms[j]).contains(59u8),
    ensures
        split(atom + seq![59u8] + bytes_of(members_wire(ms.take(n))), 59) == seq![atom]
            + members_bytes(ms).take(n),
    decreases n,
{
    let first = ms.take(n);
    let w = atom + seq![59u8] + bytes_of(members_wire(first));
    let last = member_bytes(ms[n - 1]);
    assert(!last.contains(59u8));
    if n == 1 {
        assert(first[0] == ms[0]);
        assert(members_wire(first) == ms[0].0.wire() + seq!['='] + ms[0].1.wire());
        lemma_split_single(atom, 59u8);
        lemma_split_push(atom, 59u8, last);
        assert(seq![atom].push(last) =~= seq![atom] + members_bytes(ms).take(1));
    } else {
        lemma_members_written(atom, ms, n - 1);
        assert(first.drop_last() =~= ms.take(n - 1));
        assert(first.last() == ms[n - 1]);
        let front = members_wire(ms.take(n - 1));
        assert(members_wire(first) == front + seq![';'] + ms[n - 1].0.wire() + seq!['=']
            + ms[n - 1].1.wire());
        assert(members_wire(first) =~= front + seq![';'] + (ms[n - 1].0.wire() + seq!['=']
            + ms[n - 1].1.wire()));
        lemma_bytes_of_add(front, seq![';']);
        lemma_bytes_of_add(front + seq![';'], ms[n - 1].0.wire() + seq!['='] + ms[n - 1].1.wire());
        assert(bytes_of(seq![';']) =~= seq![59u8]);
        let before = atom + seq![59u8] + bytes_of(front);
        assert(w =~= before + seq![59u8] + last);
        lemma_split_push(before, 59u8, last);
        assert((seq![atom] + members_bytes(ms).take(n - 1)).push(last) =~= seq![atom]
            + members_bytes(ms).take(n));
    }
}

/// Whether every byte of `w` is ASCII and no comma.
pub open spec fn plain_bytes(w: Seq<u8>) -> bool {
    forall|k: int| 0 <= k < w.len() ==> #[trigger] w[k] < 128 && w[k] != 44
}

/// Whether a media type comes back from what it is written as: that is
/// ASCII without comma or semicolon, does not begin with whitespace, and is
/// read as the media type.
pub open spec fn mime_returns(m: MimeView) -> bool {
    let w = m.wire();
    &&& vstd::utf8::is_ascii_chars(w)
    &&& mime_parsed(w) == Some(m)
    &&& !w.contains(',')
    &&& !w.contains(';')
    &&& w.len() == 0 || !is_space(w[0] as u8)
}

/// Tells whether a media type comes back from what it is written as.
pub fn mime_comes_back(m: &Mime) -> (r: bool)
    ensures
        r == mime_returns(m@),
{
    let text = m.to_string();
    let chars = chars_vec(text.as_str());
    let mut i: usize = 0;
    while i < chars.len()
        invariant
            i <= chars@.len(),
            chars@ == m@.wire(),
            forall|k: int|
                0 <= k < i ==> '\0' <= #[trigger] chars@[k] <= '\u{7f}' && chars@[k] != ','
                    && chars@[k] != ';',
        decreases chars@.len() - i,
    {
        let c = chars[i];
        let ascii = '\0' <= c && c <= '\u{7f}';
        if !ascii || c == ',' || c == ';' {
            proof {
                assert(chars@.contains(chars@[i as int]));
            }
            return false;
        }
        i += 1;
    }
    proof {
        assert(!chars@.contains(',')) by {
            if chars@.contains(',') {
                let k = choose|k: int| 0 <= k < chars@.len() && chars@[k] == ',';
                assert(chars@[k] != ',');
            }
        }
        assert(!chars@.contains(';')) by {
            if chars@.contains(';') {
                let k = choose|k: int| 0 <= k < chars@.len() && chars@[k] == ';';
                assert(chars@[k] != ';');
            }
        }
    }
    if chars.len() > 0 && is_space_byte(chars[0] as u8) {
        return false;
    }
    match Mime::parse(text.as_str()) {
        Some(again) => again.same(m),
        None => false,
    }
}

/// Whether each media type among the atoms of a list comes back from what it
/// is written as.
pub open spec fn types_return(list: ParsedView) -> bool {
    forall|i: int|
        0 <= i < list.len() ==> match (#[trigger] list[i]).0 {
            SimpleValueView::Mime(m) => mime_returns(m),
            _ => true,
        }
}

/// Whether an atom comes back from what it is written as: that is ASCII
/// without comma or semicolon, does not begin with whitespace, and is read as
/// the atom.
pub open spec fn atom_returns(kind: AtomKind, atom: SimpleValueView) -> bool {
    let w = bytes_of(atom.wire());
    &&& atom_of(kind, w) == Ok::<SimpleValueView, ReqHeadParsingError>(atom)
    &&& plain_bytes(w)
    &&& !w.contains(59u8)
    &&& w.len() == 0 || !is_space(w[0])
}

/// A media type that comes back from what it is written as is an atom that
/// does.
proof fn lemma_mime_atom(m: MimeView)
    requires
        mime_returns(m),
    ensures
        atom_returns(AtomKind::Mime, SimpleValueView::Mime(m)),
{
    let t = m.wire();
    let w = bytes_of(t);
    vstd::utf8::is_ascii_chars_nat_bound(t);
    assert forall|k: int| 0 <= k < w.len() implies #[trigger] w[k] < 128 && w[k] != 44 && w[k]
        != 59 && chars_of(w)[k] == t[k] by {
        assert((t[k] as nat) < 128);
        assert(w[k] == t[k] as u8);
        assert(t.contains(t[k]));
    }
    assert(chars_of(w) =~= t);
    assert(!w.contains(59u8)) by {
        if w.contains(59u8) {
            let k = choose|k: int| 0 <= k < w.len() && w[k] == 59u8;
            assert(w[k] != 59);
        }
    }
}

/// A text that is cut from the front of an ASCII item without comma, up to
/// the first semicolon, is an atom that comes back from what it is written
/// as, where the item does not begin with whitespace.
proof fn lemma_text_atom(item: Seq<u8>)
    requires
        plain_bytes(item),
        item.len() == 0 || !is_space(item[0]),
    ensures
        atom_returns(AtomKind::Plain, SimpleValueView::Text(chars_of(split(item, 59)[0]))),
{
    let atom = split(item, 59)[0];
    lemma_split_ends(item, 59u8);
    lemma_split_piece(item, 59u8, 0);
    lemma_bytes_of_chars(atom);
    assert forall|k: int| 0 <= k < atom.len() implies #[trigger] atom[k] < 128 && atom[k]
        != 44 by {
        let i = choose|i: int| 0 <= i < item.len() && item[i] == atom[k];
        assert(item.contains(atom[k]));
    }
}

/// An atom read with its members from an ASCII item without comma is read
/// again as the same once it is written out, where the atom comes back from
/// what it is written as and what is written does not end in whitespace.
/// What is written is ASCII without comma.
proof fn lemma_entry_reread(item: Seq<u8>, kind: AtomKind, readings: ReadingsView)
    requires
        entry_of(item, kind, readings) is Ok,
        plain_bytes(item),
        atom_returns(kind, entry_of(item, kind, readings).unwrap().0),
        ({
            let w = entry_bytes(entry_of(item, kind, readings).unwrap());
            w.len() == 0 || !is_space(w.last())
        }),
    ensures
        ({
            let e = entry_of(item, kind, readings).unwrap();
            let w = entry_bytes(e);
            &&& entry_of(w, kind, readings) == Ok::<
                (SimpleValueView, MembersView),
                ReqHeadParsingError,
            >(e)
            &&& plain_bytes(w)
            &&& w.len() == 0 || (!is_space(w[0]) && !is_space(w.last()))
        }),
{
    let e = entry_of(item, kind, readings).unwrap();
    let w = entry_bytes(e);
    let parts = split(item, 59);
    lemma_split_ends(item, 59u8);
    let atom = bytes_of(e.0.wire());
    let rest = parts.skip(1);
    let ms = members_of(rest, readings).unwrap();
    assert(e.1 == ms);
    lemma_members_kept(rest, readings);
    if ms.len() == 0 {
        assert(entry_wire(e.0, e.1) =~= e.0.wire());
        assert(w == atom);
        lemma_split_single(atom, 59u8);
        assert(seq![atom].skip(1) =~= Seq::<Seq<u8>>::empty());
        assert(members_of(Seq::<Seq<u8>>::empty(), readings) == Ok::<
            MembersView,
            ReqHeadParsingError,
        >(MembersView::empty()));
        assert(ms =~= MembersView::empty());
    } else {
        assert forall|j: int| 0 <= j < ms.len() implies {
            let mb = member_bytes(#[trigger] ms[j]);
            &&& member_of(mb, readings) == Ok::<
                (MemberNameView, MemberValueView),
                ReqHeadParsingError,
            >(ms[j])
            &&& !mb.contains(59u8)
            &&& plain_bytes(mb)
        } by {
            lemma_members_from_parts(rest, readings, j);
            let p = choose|p: int|
                0 <= p < rest.len() && member_of(#[trigger] rest[p], readings) == Ok::<
                    (MemberNameView, MemberValueView),
                    ReqHeadParsingError,
                >(ms[j]);
            let part = rest[p];
            assert(part == parts[p + 1]);
            lemma_split_piece(item, 59u8, p + 1);
            lemma_member_reread(part, readings);
            let mb = member_bytes(ms[j]);
            assert forall|k: int| 0 <= k < mb.len() implies #[trigger] mb[k] < 128 && mb[k]
                != 44 && mb[k] != 59 by {
                assert(mb[k] == 61 || mb[k] == 113 || part.contains(mb[k]));
                if part.contains(mb[k]) {
                    let i = choose|i: int| 0 <= i < part.len() && part[i] == mb[k];
                    assert(item.contains(parts[p + 1][i]));
                    let at = choose|at: int| 0 <= at < item.len() && item[at] == mb[k];
                    assert(item[at] < 128 && item[at] != 44);
                }
            }
            if mb.contains(59u8) {
                let k = choose|k: int| 0 <= k < mb.len() && mb[k] == 59u8;
                assert(mb[k] != 59);
            }
        }
        let n = ms.len() as int;
        lemma_members_written(atom, ms, n);
        lemma_members_reread(ms, readings, n);
        assert(ms.take(n) =~= ms);
        assert(members_bytes(ms).take(n) =~= members_bytes(ms));
        assert(bytes_of(seq![';']) =~= seq![59u8]);
        lemma_bytes_of_add(seq![';'], members_wire(ms));
        lemma_bytes_of_add(e.0.wire(), seq![';'] + members_wire(ms));
        let written = bytes_of(members_wire(ms));
        assert(w =~= atom + seq![59u8] + written);
        let again = split(w, 59);
        assert(again == seq![atom] + members_bytes(ms));
        assert(again.skip(1) =~= members_bytes(ms));
        assert(again[0] == atom);
        lemma_members_plain(ms, n);
        lemma_plain_add(atom, written);
        if atom.len() > 0 {
            assert(w[0] == atom[0]);
        } else {
            assert(w[0] == 59u8);
        }
    }
}

/// ASCII without comma, a semicolon and more of the same are ASCII without
/// comma.
proof fn lemma_plain_add(a: Seq<u8>, b: Seq<u8>)
    requires
        plain_bytes(a),
        plain_bytes(b),
    ensures
        plain_bytes(a + seq![59u8] + b),
{
    let w = a + seq![59u8] + b;
    assert forall|k: int| 0 <= k < w.len() implies #[trigger] w[k] < 128 && w[k] != 44 by {
        if k < a.len() {
            assert(w[k] == a[k]);
        } else if k > a.len() {
            assert(w[k] == b[k - a.len() - 1]);
        }
    }
}

/// The first members as they are written, with semicolons between them, are
/// ASCII without comma, where each member as it is written is.
proof fn lemma_members_plain(ms: MembersView, n: int)
    requires
        1 <= n <= ms.len(),
        forall|j: int| 0 <= j < ms.len() ==> plain_bytes(member_bytes(#[trigger] ms[j])),
    ensures
        plain_bytes(bytes_of(members_wire(ms.take(n)))),
    decreases n,
{
    let first = ms.take(n);
    let w = bytes_of(members_wire(first));
    let last = member_bytes(ms[n - 1]);
    assert(plain_bytes(last));
    if n == 1 {
        assert(first[0] == ms[0]);
        assert(members_wire(first) == ms[0].0.wire() + seq!['='] + ms[0].1.wire());
        assert(w == last);
    } else {
        lemma_members_plain(ms, n - 1);
        assert(first.drop_last() =~= ms.take(n - 1));
        assert(first.last() == ms[n - 1]);
        let front = members_wire(ms.take(n - 1));
        assert(members_wire(first) =~= front + seq![';'] + (ms[n - 1].0.wire() + seq!['=']
            + ms[n - 1].1.wire()));
        lemma_bytes_of_add(front, seq![';']);
        lemma_bytes_of_add(front + seq![';'], ms[n - 1].0.wire() + seq!['='] + ms[n - 1].1.wire());
        assert(bytes_of(seq![';']) =~= seq![59u8]);
        assert(w =~= bytes_of(front) + seq![59u8] + last);
        lemma_plain_add(bytes_of(front), last);
    }
}

/// Items are read one by one: there are as many atoms as items, and each is
/// what its item, trimmed, denotes.
proof fn lemma_entries_one_by_one(items: Seq<Seq<u8>>, kind: AtomKind, readings: ReadingsView)
    requires
        entries_of(items, kind, readings) is Ok,
    ensures
        entries_of(items, kind, readings).unwrap().len() == items.len(),
        forall|i: int|
            0 <= i < items.len() ==> entry_of(trim(#[trigger] items[i]), kind, readings) == Ok::<
                (SimpleValueView, MembersView),
                ReqHeadParsingError,
            >(entries_of(items, kind, readings).unwrap()[i]),
    decreases items.len(),
{
    if items.len() > 0 {
        lemma_entries_one_by_one(items.drop_last(), kind, readings);
        let list = entries_of(items, kind, readings).unwrap();
        let front = entries_of(items.drop_last(), kind, readings).unwrap();
        assert forall|i: int| 0 <= i < items.len() implies entry_of(
            trim(#[trigger] items[i]),
            kind,
            readings,
        ) == Ok::<(SimpleValueView, MembersView), ReqHeadParsingError>(list[i]) by {
            if i < items.len() - 1 {
                assert(items.drop_last()[i] == items[i]);
                assert(list[i] == front[i]);
            }
        }
    }
}

/// The first atoms of a list, written out with commas between them, split at
/// the commas into the atoms as they are written, where none of these holds a
/// comma.
proof fn lemma_list_written(list: ParsedView, n: int)
    requires
        1 <= n <= list.len(),
        forall|i: int| 0 <= i < list.len() ==> !entry_bytes(#[trigger] list[i]).contains(44u8),
    ensures
        split(list_bytes(list.take(n)), 44) == Seq::new(n as nat, |i: int| entry_bytes(list[i])),
    decreases n,
{
    let first = list.take(n);
    let pieces = Seq::new(n as nat, |i: int| entry_bytes(list[i]));
    if n == 1 {
        assert(first[0] == list[0]);
        assert(list_bytes(first) == entry_bytes(list[0]));
        lemma_split_single(entry_bytes(list[0]), 44u8);
        assert(seq![entry_bytes(list[0])] =~= pieces);
    } else {
        lemma_list_written(list, n - 1);
        assert(first.drop_last() =~= list.take(n - 1));
        assert(first.last() == list[n - 1]);
        let front = parsed_wire(list.take(n - 1));
        let last = entry_wire(list[n - 1].0, list[n - 1].1);
        assert(parsed_wire(first) == front + seq![','] + last);
        lemma_bytes_of_add(front, seq![',']);
        lemma_bytes_of_add(front + seq![','], last);
        assert(bytes_of(seq![',']) =~= seq![44u8]);
        assert(list_bytes(first) == list_bytes(list.take(n - 1)) + seq![44u8] + entry_bytes(
            list[n - 1],
        ));
        lemma_split_push(list_bytes(list.take(n - 1)), 44u8, entry_bytes(list[n - 1]));
        assert(Seq::new((n - 1) as nat, |i: int| entry_bytes(list[i])).push(
            entry_bytes(list[n - 1]),
        ) =~= pieces);
    }
}

/// Atoms as they are written, each without whitespace at either end and each
/// read as the atom it was written from, are read as the atoms.
proof fn lemma_written_entries(list: ParsedView, kind: AtomKind, readings: ReadingsView, n: int)
    requires
        0 <= n <= list.len(),
        forall|i: int|
            0 <= i < list.len() ==> {
                let w = entry_bytes(#[trigger] list[i]);
                &&& entry_of(w, kind, readings) == Ok::<
                    (SimpleValueView, MembersView),
                    ReqHeadParsingError,
                >(list[i])
                &&& w.len() == 0 || (!is_space(w[0]) && !is_space(w.last()))
            },
    ensures
        entries_of(Seq::new(n as nat, |i: int| entry_bytes(list[i])), kind, readings) == Ok::<
            ParsedView,
            ReqHeadParsingError,
        >(list.take(n)),
    decreases n,
{
    let pieces = Seq::new(n as nat, |i: int| entry_bytes(list[i]));
    if n == 0 {
        assert(list.take(0) =~= ParsedView::empty());
    } else {
        lemma_written_entries(list, kind, readings, n - 1);
        assert(pieces.drop_last() =~= Seq::new((n - 1) as nat, |i: int| entry_bytes(list[i])));
        assert(pieces.last() == entry_bytes(list[n - 1]));
        lemma_trim_identity(entry_bytes(list[n - 1]));
        assert(list.take(n - 1).push(list[n - 1]) =~= list.take(n));
    }
}

/// Whether no atom of a list ends in whitespace as it is written with its
/// members.
pub open spec fn clean_ends(list: ParsedView) -> bool {
    forall|i: int|
        0 <= i < list.len() ==> entry_bytes(#[trigger] list[i]).len() == 0 || !is_space(
            entry_bytes(list[i]).last(),
        )
}

/// A list read from an ASCII value is read again as the same list once it is
/// written out, where no atom ends in whitespace as it is written with its
/// members and each media type in it comes back from what it is written as.
/// What is written is ASCII and does not begin with whitespace.
pub proof fn lemma_list_reread(value: Seq<u8>, kind: AtomKind, readings: ReadingsView)
    requires
        header_value_of(value, kind, readings) is Ok,
        is_ascii_bytes(value),
        clean_ends(entries_of(split(value, 44), kind, readings).unwrap()),
        types_return(entries_of(split(value, 44), kind, readings).unwrap()),
    ensures
        ({
            let list = entries_of(split(value, 44), kind, readings).unwrap();
            let w = list_bytes(list);
            &&& header_value_of(w, kind, readings) == header_value_of(value, kind, readings)
            &&& w.len() == 0 || !is_space(w[0])
            &&& is_ascii_bytes(w)
        }),
{
    let items = split(value, 44);
    let list = entries_of(items, kind, readings).unwrap();
    let w = list_bytes(list);
    assert(header_value_of(value, kind, readings) == Ok::<HeaderValueView, ReqHeadParsingError>(
        HeaderValueView::Parsed(list),
    ));
    lemma_split_ends(value, 44u8);
    lemma_ascii_each(value);
    lemma_entries_one_by_one(items, kind, readings);
    assert forall|i: int| 0 <= i < list.len() implies {
        let e = entry_bytes(#[trigger] list[i]);
        &&& entry_of(e, kind, readings) == Ok::<
            (SimpleValueView, MembersView),
            ReqHeadParsingError,
        >(list[i])
        &&& e.len() == 0 || (!is_space(e[0]) && !is_space(e.last()))
        &&& plain_bytes(e)
    } by {
        let item = trim(items[i]);
        lemma_split_piece(value, 44u8, i);
        lemma_trim(items[i]);
        let (from, to) = choose|from: int, to: int|
            0 <= from <= to <= items[i].len() && trim(items[i]) == items[i].subrange(from, to);
        assert forall|k: int| 0 <= k < item.len() implies #[trigger] item[k] < 128 && item[k]
            != 44 by {
            assert(item[k] == items[i][from + k]);
            assert(value.contains(items[i][from + k]));
            assert(items[i].contains(items[i][from + k]));
            let at = choose|at: int| 0 <= at < value.len() && value[at] == item[k];
            assert(value[at] < 128);
        }
        assert(entry_of(item, kind, readings) == Ok::<
            (SimpleValueView, MembersView),
            ReqHeadParsingError,
        >(list[i]));
        match kind {
            AtomKind::Plain => {
                lemma_text_atom(item);
            },
            AtomKind::Mime => {
                let m = mime_parsed(chars_of(split(item, 59)[0])).unwrap();
                assert(list[i].0 == SimpleValueView::Mime(m));
                lemma_mime_atom(m);
            },
        }
        assert(entry_bytes(list[i]).len() == 0 || !is_space(entry_bytes(list[i]).last()));
        lemma_entry_reread(item, kind, readings);
    }
    let n = list.len() as int;
    assert(n >= 1);
    lemma_list_written(list, n);
    lemma_written_entries(list, kind, readings, n);
    assert(list.take(n) =~= list);
    let pieces = Seq::new(n as nat, |i: int| entry_bytes(list[i]));
    assert(split(w, 44) == pieces);
    lemma_list_ascii(list, n);
    lemma_ascii_each(w);
}

/// The first atoms of a list, written out with commas between them, are
/// ASCII, where each atom as it is written is, and begin as the first atom
/// begins.
proof fn lemma_list_ascii(list: ParsedView, n: int)
    requires
        1 <= n <= list.len(),
        forall|i: int|
            0 <= i < list.len() ==> {
                let e = entry_bytes(#[trigger] list[i]);
                &&& e.len() == 0 || !is_space(e[0])
                &&& plain_bytes(e)
            },
    ensures
        ({
            let w = list_bytes(list.take(n));
            &&& w.len() == 0 || !is_space(w[0])
            &&& forall|k: int| 0 <= k < w.len() ==> #[trigger] w[k] < 128
        }),
    decreases n,
{
    let first = list.take(n);
    let w = list_bytes(first);
    if n == 1 {
        assert(first[0] == list[0]);
        assert(w == entry_bytes(list[0]));
        assert(plain_bytes(entry_bytes(list[0])));
    } else {
        lemma_list_ascii(list, n - 1);
        assert(first.drop_last() =~= list.take(n - 1));
        assert(first.last() == list[n - 1]);
        let front = parsed_wire(list.take(n - 1));
        let last = entry_wire(list[n - 1].0, list[n - 1].1);
        assert(parsed_wire(first) == front + seq![','] + last);
        lemma_bytes_of_add(front, seq![',']);
        lemma_bytes_of_add(front + seq![','], last);
        assert(bytes_of(seq![',']) =~= seq![44u8]);
        let a = list_bytes(list.take(n - 1));
        let e = entry_bytes(list[n - 1]);
        assert(plain_bytes(e));
        assert(w == a + seq![44u8] + e);
        assert forall|k: int| 0 <= k < w.len() implies #[trigger] w[k] < 128 by {
            if k < a.len() {
                assert(w[k] == a[k]);
            } else if k > a.len() {
                assert(w[k] == e[k - a.len() - 1]);
            }
        }
        if a.len() > 0 {
            assert(w[0] == a[0]);
        } else {
            assert(w[0] == 44u8);
        }
    }
}

} // verus!
