//! Building a response.
//!
//! The builder holds a response and fills it: with an error page, with the
//! listing of a directory, with the body of a file, with what a script gave.
//! Building ends with the headers that every response carries.

use crate::http_header::headers_get;
use crate::http_header::headers_has;
use crate::http_header::headers_with;
use crate::http_header::lemma_headers_with;
use crate::http_header::value::mime_guessed;
use crate::http_header::value::HeaderValueView;
use crate::http_header::value::MimeView;
use crate::http_header::value::SimpleValueView;
use crate::http_header::EntityHeader;
use crate::http_header::GeneralHeader;
use crate::http_header::HeaderNameView;
use crate::http_header::HeaderValue;
use crate::http_header::HeadersView;
use crate::http_header::Mime;
use crate::http_header::ResHeader;
use crate::http_header::ResOnlyHeader;
use crate::http_header::SimpleHeaderValue;
use crate::http_req::ReqVerb;
use crate::http_res::get_reason_phrase;
use crate::http_res::reason_phrase;
use crate::http_res::HttpRes;
use crate::http_res::HttpResView;
use crate::http_res::ResBody;
use crate::http_res::ResBodyView;
use crate::paths::file_name;
use crate::paths::file_name_of;
use crate::req_parser::utils::utf8_string;
use crate::req_parser::SupportedEncoding;
use crate::text::copy_range;
use crate::text::bytes_lt;
use crate::text::chars_vec;
use crate::text::decimal;
use crate::text::decimal_string;
use crate::text::lemma_lex_irreflexive;
use crate::text::lemma_lex_total;
use crate::text::lemma_lex_transitive;
use crate::text::lemma_position_is;
use crate::text::lex_lt;
use crate::text::position;
use crate::text::str_eq;
use vstd::prelude::*;
use vstd::string::StrSliceExecFns;
use vstd::string::StringExecFns;
use vstd::relations::sorted_by;
use vstd::relations::total_ordering;
use vstd::seq_lib::lemma_sorted_unique;
use vstd::seq_lib::to_multiset_build;
use vstd::seq_lib::to_multiset_insert;
use vstd::utf8::decode_utf8;
use vstd::utf8::encode_utf8;
use vstd::utf8::valid_utf8;
use vstd::utf8::encode_utf8_decode_utf8;

verus! {

/// A body is read from an open file where the file is longer than this many
/// bytes, and held in memory otherwise.
pub const STREAM_THRESHOLD: u64 = 1048576;

/// The name that the server gives itself in the header `Server`.
pub open spec fn server_name() -> Seq<char> {
    "rust-http-server"@
}

/// The challenge that a response with the status 401 carries.
pub open spec fn basic_challenge() -> Seq<char> {
    "Basic realm=\"simple\""@
}

/// The media type of the pages that the server writes itself:
/// `text/html; charset=utf-8`.
pub open spec fn html_type() -> MimeView {
    MimeView {
        kind: "text"@,
        subtype: "html"@,
        suffix: None,
        params: seq![("charset"@, "utf-8"@)],
    }
}

/// The title of an error page: the status code in decimal, a space and the
/// reason phrase.
pub open spec fn error_title(status_code: u16) -> Seq<char> {
    decimal(status_code as nat) + seq![' '] + reason_phrase(status_code)
}

/// The page that tells of an error.
pub open spec fn error_page(status_code: u16) -> Seq<char> {
    "<!DOCTYPE html> <html lang=\"en\"> <head> <meta charset=\"utf-8\"/> <title>"@ + error_title(
        status_code,
    ) + "</title> </head> <body> <h1>"@ + error_title(status_code)
        + "</h1> </body> </html> \r\n"@
}

/// The response with the headers that every response carries. A header `Date`
/// that is missing is set to `date`, a header `Server` that is missing to the
/// name of the server, and where there is a body that is not empty
/// `Content-Length` is set to the number of its bytes.
pub open spec fn built(res: HttpResView, date: Seq<char>) -> HttpResView {
    let dated = if headers_has(res.headers, HeaderNameView::General(GeneralHeader::Date)) {
        res.headers
    } else {
        headers_with(
            res.headers,
            HeaderNameView::General(GeneralHeader::Date),
            HeaderValueView::Simple(SimpleValueView::Text(date)),
        )
    };
    let named = if headers_has(dated, HeaderNameView::ResOnly(ResOnlyHeader::Server)) {
        dated
    } else {
        headers_with(
            dated,
            HeaderNameView::ResOnly(ResOnlyHeader::Server),
            HeaderValueView::Simple(SimpleValueView::Text(server_name())),
        )
    };
    let sized = if res.body_len() > 0 {
        headers_with(
            named,
            HeaderNameView::Entity(EntityHeader::ContentLength),
            HeaderValueView::Simple(SimpleValueView::Number(res.body_len() as u64)),
        )
    } else {
        named
    };
    HttpResView { headers: sized, ..res }
}

/// The response with `Content-Type` set to the media type of the server's own
/// pages.
pub open spec fn with_html_type(res: HttpResView) -> HttpResView {
    HttpResView {
        headers: headers_with(
            res.headers,
            HeaderNameView::Entity(EntityHeader::ContentType),
            HeaderValueView::Simple(SimpleValueView::Mime(html_type())),
        ),
        ..res
    }
}

/// The response that tells of an error, before the headers that every
/// response carries are set. The status is set. The status 401 carries the
/// challenge in `WWW-Authenticate`. With a body, the body is the error page;
/// without, `Content-Length` is the text `0`.
pub open spec fn error_response(res: HttpResView, status_code: u16, with_body: bool) -> HttpResView {
    let challenged = if status_code == 401 {
        headers_with(
            res.headers,
            HeaderNameView::ResOnly(ResOnlyHeader::WWWAuthenticate),
            HeaderValueView::Simple(SimpleValueView::Text(basic_challenge())),
        )
    } else {
        res.headers
    };
    if with_body {
        HttpResView {
            status_code,
            body: Some(ResBodyView::Bytes(encode_utf8(error_page(status_code)))),
            ..with_html_type(HttpResView { headers: challenged, ..res })
        }
    } else {
        HttpResView {
            status_code,
            headers: headers_with(
                challenged,
                HeaderNameView::Entity(EntityHeader::ContentLength),
                HeaderValueView::Simple(SimpleValueView::Text(seq!['0'])),
            ),
            ..res
        }
    }
}

/// The names that building a response may set on its own.
pub open spec fn set_by_building(name: HeaderNameView) -> bool {
    name == HeaderNameView::General(GeneralHeader::Date) || name == HeaderNameView::ResOnly(
        ResOnlyHeader::Server,
    ) || name == HeaderNameView::Entity(EntityHeader::ContentLength)
}

/// What building does to the headers, step by step: `Date` and `Server` are
/// set where they are missing, then `Content-Length` where the body is not
/// empty, and each step leaves the other names as they were.
proof fn lemma_built_steps(res: HttpResView, date: Seq<char>)
    ensures
        forall|name: HeaderNameView|
            !set_by_building(name) ==> #[trigger] headers_get(built(res, date).headers, name)
                == headers_get(res.headers, name),
        headers_has(built(res, date).headers, HeaderNameView::General(GeneralHeader::Date)),
        headers_has(built(res, date).headers, HeaderNameView::ResOnly(ResOnlyHeader::Server)),
        res.body_len() > 0 ==> headers_get(
            built(res, date).headers,
            HeaderNameView::Entity(EntityHeader::ContentLength),
        ) == Some(HeaderValueView::Simple(SimpleValueView::Number(res.body_len() as u64))),
{
    let dated = if headers_has(res.headers, HeaderNameView::General(GeneralHeader::Date)) {
        res.headers
    } else {
        headers_with(
            res.headers,
            HeaderNameView::General(GeneralHeader::Date),
            HeaderValueView::Simple(SimpleValueView::Text(date)),
        )
    };
    let named = if headers_has(dated, HeaderNameView::ResOnly(ResOnlyHeader::Server)) {
        dated
    } else {
        headers_with(
            dated,
            HeaderNameView::ResOnly(ResOnlyHeader::Server),
            HeaderValueView::Simple(SimpleValueView::Text(server_name())),
        )
    };
    lemma_headers_with(
        res.headers,
        HeaderNameView::General(GeneralHeader::Date),
        HeaderValueView::Simple(SimpleValueView::Text(date)),
    );
    lemma_headers_with(
        dated,
        HeaderNameView::ResOnly(ResOnlyHeader::Server),
        HeaderValueView::Simple(SimpleValueView::Text(server_name())),
    );
    lemma_headers_with(
        named,
        HeaderNameView::Entity(EntityHeader::ContentLength),
        HeaderValueView::Simple(SimpleValueView::Number(res.body_len() as u64)),
    );
}

/// Building a response leaves every header standing that it does not set on
/// its own.
pub proof fn lemma_built_keeps(res: HttpResView, date: Seq<char>, name: HeaderNameView)
    requires
        !set_by_building(name),
    ensures
        headers_get(built(res, date).headers, name) == headers_get(res.headers, name),
{
    lemma_built_steps(res, date);
}

/// A response that was built carries `Date` and `Server`, and where its body
/// is not empty its `Content-Length` is the number of bytes of the body.
pub proof fn lemma_built_headers(res: HttpResView, date: Seq<char>)
    ensures
        headers_has(built(res, date).headers, HeaderNameView::General(GeneralHeader::Date)),
        headers_has(built(res, date).headers, HeaderNameView::ResOnly(ResOnlyHeader::Server)),
        built(res, date).body == res.body,
        res.body_len() > 0 ==> headers_get(
            built(res, date).headers,
            HeaderNameView::Entity(EntityHeader::ContentLength),
        ) == Some(HeaderValueView::Simple(SimpleValueView::Number(res.body_len() as u64))),
{
    lemma_built_steps(res, date);
}

/// Every response with the status 401 that the builder makes carries the
/// challenge in `WWW-Authenticate`, whatever the response held before and
/// whether or not it has a body.
pub proof fn lemma_unauthorized_challenge(res: HttpResView, with_body: bool, date: Seq<char>)
    ensures
        built(error_response(res, 401, with_body), date).status_code == 401,
        headers_get(
            built(error_response(res, 401, with_body), date).headers,
            HeaderNameView::ResOnly(ResOnlyHeader::WWWAuthenticate),
        ) == Some(HeaderValueView::Simple(SimpleValueView::Text(basic_challenge()))),
{
    let name = HeaderNameView::ResOnly(ResOnlyHeader::WWWAuthenticate);
    let value = HeaderValueView::Simple(SimpleValueView::Text(basic_challenge()));
    let challenged = headers_with(res.headers, name, value);
    lemma_headers_with(res.headers, name, value);
    lemma_headers_with(
        challenged,
        HeaderNameView::Entity(EntityHeader::ContentType),
        HeaderValueView::Simple(SimpleValueView::Mime(html_type())),
    );
    lemma_headers_with(
        challenged,
        HeaderNameView::Entity(EntityHeader::ContentLength),
        HeaderValueView::Simple(SimpleValueView::Text(seq!['0'])),
    );
    lemma_built_keeps(error_response(res, 401, with_body), date, name);
}

/// An entry of a directory, as characters: its name, and whether it is a
/// directory.
pub type EntryView = (Seq<char>, bool);

/// The entries of a directory, as characters.
pub open spec fn entries_view(v: Seq<(String, bool)>) -> Seq<EntryView> {
    Seq::new(v.len(), |i: int| (v[i].0@, v[i].1))
}

/// Whether `a` stands at or before `b` in a listing: a directory stands
/// before a file, and among directories and among files the names are in the
/// order in which their UTF-8 bytes are in a dictionary.
pub open spec fn entry_leq(a: EntryView, b: EntryView) -> bool {
    if a.1 != b.1 {
        a.1
    } else {
        !lex_lt(encode_utf8(b.0), encode_utf8(a.0))
    }
}

/// The order of a listing.
pub open spec fn listing_order() -> spec_fn(EntryView, EntryView) -> bool {
    |a: EntryView, b: EntryView| entry_leq(a, b)
}

/// The order of a listing is a total order.
pub proof fn lemma_listing_order_total()
    ensures
        total_ordering(listing_order()),
{
    let r = listing_order();
    assert forall|x: EntryView| #[trigger] r(x, x) by {
        lemma_lex_irreflexive(encode_utf8(x.0));
    }
    assert forall|x: EntryView, y: EntryView| #[trigger] r(x, y) && #[trigger] r(y, x) implies x
        == y by {
        lemma_lex_total(encode_utf8(x.0), encode_utf8(y.0));
        encode_utf8_decode_utf8(x.0);
        encode_utf8_decode_utf8(y.0);
    }
    assert forall|x: EntryView, y: EntryView, z: EntryView| #[trigger]
        r(x, y) && #[trigger] r(y, z) implies r(x, z) by {
        if x.1 == y.1 && y.1 == z.1 {
            if lex_lt(encode_utf8(z.0), encode_utf8(x.0)) {
                if lex_lt(encode_utf8(y.0), encode_utf8(z.0)) {
                    lemma_lex_transitive(encode_utf8(y.0), encode_utf8(z.0), encode_utf8(x.0));
                } else {
                    lemma_lex_total(encode_utf8(y.0), encode_utf8(z.0));
                }
            }
        }
    }
    assert forall|x: EntryView, y: EntryView| #[trigger] r(x, y) || #[trigger] r(y, x) by {
        if x.1 == y.1 && lex_lt(encode_utf8(y.0), encode_utf8(x.0)) && lex_lt(
            encode_utf8(x.0),
            encode_utf8(y.0),
        ) {
            lemma_lex_transitive(encode_utf8(x.0), encode_utf8(y.0), encode_utf8(x.0));
            lemma_lex_irreflexive(encode_utf8(x.0));
        }
    }
}

/// The entries in the order of a listing.
pub open spec fn sorted_entries(entries: Seq<EntryView>) -> Seq<EntryView> {
    entries.sort_by(listing_order())
}

/// A listing holds the entries of the directory, each as often as the
/// directory does, with directories before files and the names of each kind in
/// ascending order.
pub proof fn lemma_listing_sorted(entries: Seq<EntryView>)
    ensures
        sorted_entries(entries).to_multiset() == entries.to_multiset(),
        sorted_entries(entries).len() == entries.len(),
        forall|i: int, j: int|
            0 <= i < j < sorted_entries(entries).len() ==> entry_leq(
                #[trigger] sorted_entries(entries)[i],
                #[trigger] sorted_entries(entries)[j],
            ),
        forall|i: int, j: int|
            0 <= i < j < sorted_entries(entries).len() && (#[trigger] sorted_entries(
                entries,
            )[j]).1 ==> (#[trigger] sorted_entries(entries)[i]).1,
{
    lemma_listing_order_total();
    entries.lemma_sort_by_ensures(listing_order());
    let s = sorted_entries(entries);
    s.to_multiset_ensures();
    entries.to_multiset_ensures();
    assert forall|i: int, j: int| 0 <= i < j < s.len() implies entry_leq(
        #[trigger] s[i],
        #[trigger] s[j],
    ) by {
        assert(listing_order()(s[i], s[j]));
    }
    assert forall|i: int, j: int| 0 <= i < j < s.len() && (#[trigger] s[j]).1 implies (
    #[trigger] s[i]).1 by {
        assert(listing_order()(s[i], s[j]));
    }
}

/// The predicate "is no slash".
pub open spec fn is_not_slash() -> spec_fn(char) -> bool {
    |c: char| c != '/'
}

/// A path without the slashes at its end.
pub open spec fn trim_end_slashes(path: Seq<char>) -> Seq<char> {
    path.take(path.len() - position(path.reverse(), is_not_slash()))
}

/// The address of an entry of the directory at `rel`: `rel` without the
/// slashes at its end, one slash unless `rel` is the root, and the name.
pub open spec fn entry_href(rel: Seq<char>, name: Seq<char>) -> Seq<char> {
    trim_end_slashes(rel) + if rel == seq!['/'] {
        Seq::<char>::empty()
    } else {
        seq!['/']
    } + name
}

/// One entry of a listing: a link to the entry that shows its name, with a
/// slash behind the name of a directory.
pub open spec fn entry_html(rel: Seq<char>, entry: EntryView) -> Seq<char> {
    "<li><pre><a href=\""@ + entry_href(rel, entry.0) + "\">"@ + entry.0 + if entry.1 {
        seq!['/']
    } else {
        Seq::<char>::empty()
    } + "</a></pre></li>"@
}

/// The entries of a listing, one behind the other.
pub open spec fn entries_html(rel: Seq<char>, items: Seq<EntryView>) -> Seq<char>
    decreases items.len(),
{
    if items.len() == 0 {
        Seq::<char>::empty()
    } else {
        entries_html(rel, items.drop_last()) + entry_html(rel, items.last())
    }
}

/// What a listing shows: the parent directory first unless the directory is
/// the root, then the entries in the order of a listing.
pub open spec fn listing_items(rel: Seq<char>, entries: Seq<EntryView>) -> Seq<EntryView> {
    if rel == seq!['/'] {
        sorted_entries(entries)
    } else {
        seq![(seq!['.', '.'], true)] + sorted_entries(entries)
    }
}

/// The page that lists the directory at `rel`.
pub open spec fn listing_page(rel: Seq<char>, entries: Seq<EntryView>) -> Seq<char> {
    "<!DOCTYPE HTML> <html lang=\"en\"> <head> <meta charset=\"utf-8\"/> <title>Index of "@ + rel
        + "</title> </head> <body> <h1>Index of "@ + rel + "</h1> <hr/> <ul>"@ + entries_html(
        rel,
        listing_items(rel, entries),
    ) + "</ul> <hr/> </body> </html> \r\n"@
}

/// The response that lists a directory.
pub open spec fn listing_response(
    res: HttpResView,
    entries: Seq<EntryView>,
    rel: Seq<char>,
) -> HttpResView {
    HttpResView {
        body: Some(ResBodyView::Bytes(encode_utf8(listing_page(rel, entries)))),
        ..with_html_type(res)
    }
}

/// The encoding in which the file at `path` is sent: the encoding that the
/// sender accepts, where the media type of the file is a text; none
/// otherwise.
pub open spec fn file_compression(
    mime: MimeView,
    encoding: Option<SupportedEncoding>,
) -> Option<SupportedEncoding> {
    if mime.kind == "text"@ {
        encoding
    } else {
        None
    }
}

/// The response that carries a file of a media type: `Content-Type` is the
/// media type, `Content-Encoding` names the encoding in which the file was
/// compressed, where it was, and the body is the body given.
pub open spec fn typed_file_response(
    res: HttpResView,
    mime: MimeView,
    compressed: Option<SupportedEncoding>,
    body: ResBodyView,
) -> HttpResView {
    let typed = headers_with(
        res.headers,
        HeaderNameView::Entity(EntityHeader::ContentType),
        HeaderValueView::Simple(SimpleValueView::Mime(mime)),
    );
    HttpResView {
        headers: match compressed {
            Some(e) => headers_with(
                typed,
                HeaderNameView::Entity(EntityHeader::ContentEncoding),
                HeaderValueView::Simple(SimpleValueView::Text(e.wire())),
            ),
            None => typed,
        },
        body: Some(body),
        ..res
    }
}

/// The response that carries the file at a path: its media type is the one
/// that the path stands for.
pub open spec fn file_response(
    res: HttpResView,
    path: Seq<char>,
    compressed: Option<SupportedEncoding>,
    body: ResBodyView,
) -> HttpResView {
    typed_file_response(res, mime_guessed(path), compressed, body)
}

/// The pattern in which the date of a response is written: the day of the
/// week, the day, the month, the year and the time of day, in GMT.
pub open spec fn date_pattern() -> Seq<char> {
    "%a, %d %b %Y %H:%M:%S GMT"@
}

/// Whether a text may stand as the date of a response: it is one line of
/// ASCII, not empty, that ends in `GMT`.
pub open spec fn date_line(date: Seq<char>) -> bool {
    &&& date.len() >= 3
    &&& vstd::utf8::is_ascii_chars(date)
    &&& !date.contains('\r')
    &&& !date.contains('\n')
    &&& date.skip(date.len() - 3) == seq!['G', 'M', 'T']
}

/// The date and time of now, from `chrono::Utc::now`, written by `format` in
/// the pattern of the date of a response. What is written depends on the
/// clock; whatever the clock says, it is digits, English names of days and
/// months and the punctuation of the pattern, on one line that ends in `GMT`.
#[verifier::external_body]
fn utc_now_formatted(pattern: &str) -> (date: String)
    requires
        pattern@ == date_pattern(),
    ensures
        date_line(date@),
{
    chrono::Utc::now().format(pattern).to_string()
}

/// The date and time of now in the form of HTTP.
pub fn http_date() -> (date: String)
    ensures
        date_line(date@),
{
    utc_now_formatted("%a, %d %b %Y %H:%M:%S GMT")
}

/// The builder of a response.
pub struct ResBuilder {
    res: HttpRes,
}

impl View for ResBuilder {
    type V = HttpResView;

    closed spec fn view(&self) -> HttpResView {
        self.res@
    }
}

impl ResBuilder {
    /// A builder that holds a response of that version with the status 200,
    /// without headers and without body.
    pub fn new(version: &str) -> (r: Self)
        ensures
            r@ == (HttpResView {
                version: version@,
                status_code: 200,
                headers: HeadersView::empty(),
                body: None,
                raw_headers: None,
            }),
    {
        Self { res: HttpRes::new(version) }
    }

    /// Sets `Content-Type` to the media type of the server's own pages.
    fn set_default_content_type(&mut self)
        ensures
            final(self)@ == with_html_type(old(self)@),
    {
        self.res.set_header(
            ResHeader::Entity(EntityHeader::ContentType),
            HeaderValue::Simple(
                SimpleHeaderValue::Mime(Mime::new("text", "html").with_param("charset", "utf-8")),
            ),
        );
    }

    /// Sets the headers that every response carries, with `date` for the
    /// header `Date` where it is missing.
    pub fn do_build_at(&mut self, date: String) -> (r: &mut HttpRes)
        ensures
            r@ == built(old(self)@, date@),
            final(self)@ == final(r)@,
            r@.body_len() > 0 ==> headers_get(
                r@.headers,
                HeaderNameView::Entity(EntityHeader::ContentLength),
            ) == Some(HeaderValueView::Simple(SimpleValueView::Number(r@.body_len() as u64))),
    {
        if !self.res.has_header(ResHeader::General(GeneralHeader::Date)) {
            self.res.set_header(
                ResHeader::General(GeneralHeader::Date),
                HeaderValue::Simple(SimpleHeaderValue::String(date)),
            );
        }
        if !self.res.has_header(ResHeader::ResOnly(ResOnlyHeader::Server)) {
            self.res.set_header(
                ResHeader::ResOnly(ResOnlyHeader::Server),
                HeaderValue::text("rust-http-server"),
            );
        }
        let len: u64 = match self.res.body_ref() {
            Some(ResBody::Bytes(bytes)) => bytes.len() as u64,
            Some(ResBody::Stream(_, len)) => *len,
            None => 0,
        };
        if len > 0 {
            proof {
                lemma_headers_with(
                    self.res@.headers,
                    HeaderNameView::Entity(EntityHeader::ContentLength),
                    HeaderValueView::Simple(SimpleValueView::Number(len)),
                );
            }
            self.res.set_header(
                ResHeader::Entity(EntityHeader::ContentLength),
                HeaderValue::Simple(SimpleHeaderValue::Number(len)),
            );
        }
        &mut self.res
    }

    /// Sets the headers that every response carries, with the date and time of
    /// now for the header `Date` where it is missing.
    pub fn do_build(&mut self) -> (r: &mut HttpRes)
        ensures
            exists|date: Seq<char>| date_line(date) && r@ == built(old(self)@, date),
            final(self)@ == final(r)@,
            r@.body_len() > 0 ==> headers_get(
                r@.headers,
                HeaderNameView::Entity(EntityHeader::ContentLength),
            ) == Some(HeaderValueView::Simple(SimpleValueView::Number(r@.body_len() as u64))),
    {
        let date = http_date();
        self.do_build_at(date)
    }

    /// Makes the response tell of an error, and sets the headers that every
    /// response carries, with `date` for the header `Date` where it is
    /// missing.
    pub fn build_error_at(&mut self, status_code: u16, with_body: bool, date: String) -> (r:
        &mut HttpRes)
        ensures
            r@ == built(error_response(old(self)@, status_code, with_body), date@),
            final(self)@ == final(r)@,
            r@.status_code == status_code,
            status_code == 401 ==> headers_get(
                r@.headers,
                HeaderNameView::ResOnly(ResOnlyHeader::WWWAuthenticate),
            ) == Some(HeaderValueView::Simple(SimpleValueView::Text(basic_challenge()))),
    {
        proof {
            lemma_unauthorized_challenge(old(self)@, with_body, date@);
        }
        self.res.set_status(status_code);
        if status_code == 401 {
            self.res.set_header(
                ResHeader::ResOnly(ResOnlyHeader::WWWAuthenticate),
                HeaderValue::text("Basic realm=\"simple\""),
            );
        }
        if with_body {
            self.set_default_content_type();
            let mut title = decimal_string(status_code as u64);
            title.push(' ');
            let reason = get_reason_phrase(status_code);
            title.append(reason.as_str());
            let mut page = String::from_str(
                "<!DOCTYPE html> <html lang=\"en\"> <head> <meta charset=\"utf-8\"/> <title>",
            );
            page.append(title.as_str());
            page.append("</title> </head> <body> <h1>");
            page.append(title.as_str());
            page.append("</h1> </body> </html> \r\n");
            proof {
                assert(page@ =~= error_page(status_code));
            }
            self.res.set_body(Some(ResBody::Bytes(page.as_str().as_bytes_vec())));
        } else {
            let mut zero = String::new();
            zero.push('0');
            proof {
                assert(zero@ =~= seq!['0']);
            }
            self.res.set_header(
                ResHeader::Entity(EntityHeader::ContentLength),
                HeaderValue::Simple(SimpleHeaderValue::String(zero)),
            );
        }
        self.do_build_at(date)
    }

    /// Makes the response tell of an error, and sets the headers that every
    /// response carries, with the date and time of now for the header `Date`
    /// where it is missing.
    pub fn build_error(&mut self, status_code: u16, with_body: bool) -> (r: &mut HttpRes)
        ensures
            exists|date: Seq<char>|
                date_line(date) && r@ == built(
                    error_response(old(self)@, status_code, with_body),
                    date,
                ),
            final(self)@ == final(r)@,
            r@.status_code == status_code,
            status_code == 401 ==> headers_get(
                r@.headers,
                HeaderNameView::ResOnly(ResOnlyHeader::WWWAuthenticate),
            ) == Some(HeaderValueView::Simple(SimpleValueView::Text(basic_challenge()))),
    {
        let date = http_date();
        self.build_error_at(status_code, with_body, date)
    }

    /// Makes the response list a directory. `entries` holds the name of each
    /// entry of the directory and whether it is a directory; `rel_path` is
    /// the path of the directory as the sender wrote it.
    pub fn list_directory(&mut self, entries: Vec<(String, bool)>, rel_path: &str)
        ensures
            final(self)@ == listing_response(old(self)@, entries_view(entries@), rel_path@),
    {
        self.set_default_content_type();
        let sorted = sort_entries(&entries);
        proof {
            reveal_strlit("/");
            reveal_strlit("..");
            assert("/"@ =~= seq!['/']);
            assert(".."@ =~= seq!['.', '.']);
        }
        let at_root = str_eq(rel_path, "/");
        let base = without_end_slashes(rel_path);
        let mut page = String::from_str(
            "<!DOCTYPE HTML> <html lang=\"en\"> <head> <meta charset=\"utf-8\"/> <title>Index of ",
        );
        page.append(rel_path);
        page.append("</title> </head> <body> <h1>Index of ");
        page.append(rel_path);
        page.append("</h1> <hr/> <ul>");
        let ghost items = listing_items(rel_path@, entries_view(entries@));
        let ghost start = page@;
        if !at_root {
            push_entry(&mut page, rel_path, base.as_str(), "..", true);
        }
        let ghost lead: int = if at_root {
            0
        } else {
            1
        };
        proof {
            assert(items.take(lead).len() == lead);
            if !at_root {
                assert(items.take(1).drop_last() =~= Seq::<EntryView>::empty());
                assert(items.take(1).last() == (seq!['.', '.'], true));
                assert(entries_html(rel_path@, items.take(1).drop_last()) =~= Seq::<char>::empty());
            }
            assert(page@ =~= start + entries_html(rel_path@, items.take(lead)));
        }
        let mut i: usize = 0;
        while i < sorted.len()
            invariant
                i <= sorted@.len(),
                at_root == (rel_path@ == seq!['/']),
                base@ == trim_end_slashes(rel_path@),
                lead == if at_root {
                    0int
                } else {
                    1int
                },
                items == listing_items(rel_path@, entries_view(entries@)),
                entries_view(sorted@) == sorted_entries(entries_view(entries@)),
                page@ == start + entries_html(rel_path@, items.take(lead + i)),
            decreases sorted@.len() - i,
        {
            push_entry(&mut page, rel_path, base.as_str(), sorted[i].0.as_str(), sorted[i].1);
            proof {
                let t = items.take(lead + i + 1);
                assert(t.drop_last() == items.take(lead + i));
                assert(items[lead + i] == entries_view(sorted@)[i as int]);
                assert(t.last() == (sorted@[i as int].0@, sorted@[i as int].1));
                assert(page@ =~= start + entries_html(rel_path@, t));
            }
            i += 1;
        }
        proof {
            assert(items.take(lead + i) == items);
        }
        page.append("</ul> <hr/> </body> </html> \r\n");
        proof {
            assert(page@ =~= listing_page(rel_path@, entries_view(entries@)));
        }
        self.res.set_body(Some(ResBody::Bytes(page.as_str().as_bytes_vec())));
    }

    /// Makes the response carry a file. `path` is the path of the file,
    /// `compressed` the encoding in which its contents were compressed, where
    /// they were, and `body` the contents as they are to be sent.
    pub fn set_file_body(&mut self, path: &str, compressed: Option<SupportedEncoding>, body: ResBody)
        ensures
            final(self)@ == file_response(old(self)@, path@, compressed, body@),
    {
        self.set_typed_body(Mime::guess(path), compressed, body);
    }

    /// Makes the response carry a file of the media type `mime`. `compressed`
    /// is the encoding in which its contents were compressed, where they
    /// were, and `body` the contents as they are to be sent.
    pub fn set_typed_body(&mut self, mime: Mime, compressed: Option<SupportedEncoding>, body: ResBody)
        ensures
            final(self)@ == typed_file_response(old(self)@, mime@, compressed, body@),
    {
        self.res.set_header(
            ResHeader::Entity(EntityHeader::ContentType),
            HeaderValue::Simple(SimpleHeaderValue::Mime(mime)),
        );
        match compressed {
            Some(e) => {
                self.res.set_header(
                    ResHeader::Entity(EntityHeader::ContentEncoding),
                    HeaderValue::Simple(SimpleHeaderValue::String(e.to_string())),
                );
            },
            None => {},
        }
        self.res.set_body(Some(body));
    }

    /// The response as it stands.
    pub fn res(&self) -> (r: &HttpRes)
        ensures
            r@ == self@,
    {
        &self.res
    }

    /// The response, taken out of the builder.
    pub fn into_res(self) -> (r: HttpRes)
        ensures
            r@ == self@,
    {
        self.res
    }
}

/// The encoding in which the file at `path` is to be compressed before it is
/// sent, given the encoding that the sender accepts.
pub fn compression_for(path: &str, encoding: Option<&SupportedEncoding>) -> (r: Option<
    SupportedEncoding,
>)
    ensures
        r == file_compression(
            mime_guessed(path@),
            match encoding {
                Some(e) => Some(*e),
                None => None,
            },
        ),
{
    let mime = Mime::guess(path);
    compression_for_mime(&mime, encoding)
}

/// The encoding in which a file of the media type `mime` is to be compressed
/// before it is sent, given the encoding that the sender accepts.
pub fn compression_for_mime(mime: &Mime, encoding: Option<&SupportedEncoding>) -> (r: Option<
    SupportedEncoding,
>)
    ensures
        r == file_compression(
            mime@,
            match encoding {
                Some(e) => Some(*e),
                None => None,
            },
        ),
{
    if str_eq(mime.kind.as_str(), "text") {
        match encoding {
            Some(e) => Some(*e),
            None => None,
        }
    } else {
        None
    }
}

/// Whether a body of `len` bytes is read from the open file rather than held
/// in memory.
pub fn should_stream(len: u64) -> (r: bool)
    ensures
        r == (len > STREAM_THRESHOLD),
{
    len > STREAM_THRESHOLD
}

/// Tells whether `a` stands at or before `b` in a listing.
fn entry_at_or_before(a: &(String, bool), b: &(String, bool)) -> (r: bool)
    ensures
        r == entry_leq((a.0@, a.1), (b.0@, b.1)),
{
    if a.1 != b.1 {
        a.1
    } else {
        !bytes_lt(b.0.as_str().as_bytes(), a.0.as_str().as_bytes())
    }
}

/// The entries in the order of a listing.
pub fn sort_entries(entries: &Vec<(String, bool)>) -> (r: Vec<(String, bool)>)
    ensures
        entries_view(r@) == sorted_entries(entries_view(entries@)),
{
    let ghost all = entries_view(entries@);
    let mut sorted: Vec<(String, bool)> = Vec::new();
    let mut i: usize = 0;
    proof {
        lemma_listing_order_total();
        assert(all.take(0) =~= Seq::<EntryView>::empty());
        assert(entries_view(sorted@) =~= Seq::<EntryView>::empty());
    }
    while i < entries.len()
        invariant
            i <= entries@.len(),
            all == entries_view(entries@),
            total_ordering(listing_order()),
            sorted_by(entries_view(sorted@), listing_order()),
            entries_view(sorted@).to_multiset() == all.take(i as int).to_multiset(),
        decreases entries@.len() - i,
    {
        let e = (entries[i].0.clone(), entries[i].1);
        let ghost ev = (e.0@, e.1);
        let ghost before = entries_view(sorted@);
        let mut j: usize = 0;
        while j < sorted.len() && entry_at_or_before(&sorted[j], &e)
            invariant
                j <= sorted@.len(),
                before == entries_view(sorted@),
                ev == (e.0@, e.1),
                forall|k: int| 0 <= k < j ==> entry_leq(#[trigger] before[k], ev),
            decreases sorted@.len() - j,
        {
            proof {
                assert(before[j as int] == (sorted@[j as int].0@, sorted@[j as int].1));
            }
            j += 1;
        }
        proof {
            if j < sorted@.len() {
                assert(before[j as int] == (sorted@[j as int].0@, sorted@[j as int].1));
            }
        }
        sorted.insert(j, e);
        proof {
            let after = entries_view(sorted@);
            assert(after =~= before.insert(j as int, ev));
            to_multiset_insert(before, j as int, ev);
            assert(all.take(i + 1) =~= all.take(i as int).push(ev));
            to_multiset_build(all.take(i as int), ev);
            let order = listing_order();
            assert forall|a: int, b: int| 0 <= a < b < after.len() implies #[trigger] order(
                after[a],
                after[b],
            ) by {
                if b < j {
                    assert(order(before[a], before[b]));
                } else if b == j {
                    assert(entry_leq(before[a], ev));
                } else if a == j {
                    assert(!entry_leq(before[j as int], ev));
                    assert(order(ev, before[j as int]) || order(before[j as int], ev));
                    if b - 1 > j {
                        assert(order(before[j as int], before[b - 1]));
                        assert(order(ev, before[j as int]) && order(before[j as int], before[b - 1])
                            ==> order(ev, before[b - 1]));
                    }
                } else if a < j {
                    assert(order(before[a], before[b - 1]));
                } else {
                    assert(order(before[a - 1], before[b - 1]));
                }
            }
        }
        i += 1;
    }
    proof {
        assert(all.take(i as int) == all);
        all.lemma_sort_by_ensures(listing_order());
        lemma_sorted_unique(entries_view(sorted@), sorted_entries(all), listing_order());
    }
    sorted
}

/// A path without the slashes at its end.
pub fn without_end_slashes(path: &str) -> (r: String)
    ensures
        r@ == trim_end_slashes(path@),
{
    let chars = chars_vec(path);
    let n = chars.len();
    let mut k: usize = 0;
    while k < n && chars[n - 1 - k] == '/'
        invariant
            n == chars@.len(),
            k <= n,
            forall|i: int| n - k <= i < n ==> chars@[i] == '/',
        decreases n - k,
    {
        k += 1;
    }
    proof {
        let t = chars@.reverse();
        assert forall|i: int| 0 <= i < k implies !is_not_slash()(#[trigger] t[i]) by {
            assert(t[i] == chars@[n - 1 - i]);
        }
        if k < n {
            assert(t[k as int] == chars@[n - 1 - k]);
        }
        lemma_position_is(t, is_not_slash(), k as int);
    }
    let mut s = String::new();
    let mut i: usize = 0;
    while i < n - k
        invariant
            n == chars@.len(),
            k <= n,
            i <= n - k,
            s@ == chars@.take(i as int),
        decreases n - k - i,
    {
        s.push(chars[i]);
        proof {
            assert(s@ =~= chars@.take(i + 1));
        }
        i += 1;
    }
    s
}

/// Appends one entry of a listing to a page.
fn push_entry(page: &mut String, rel: &str, base: &str, name: &str, is_dir: bool)
    requires
        base@ == trim_end_slashes(rel@),
    ensures
        final(page)@ == old(page)@ + entry_html(rel@, (name@, is_dir)),
{
    proof {
        reveal_strlit("/");
        assert("/"@ =~= seq!['/']);
    }
    page.append("<li><pre><a href=\"");
    page.append(base);
    if !str_eq(rel, "/") {
        page.push('/');
    }
    page.append(name);
    page.append("\">");
    page.append(name);
    if is_dir {
        page.push('/');
    }
    page.append("</a></pre></li>");
    proof {
        assert(page@ =~= old(page)@ + entry_html(rel@, (name@, is_dir)));
    }
}


/// What went wrong while a response was built, as characters: the message.
pub enum ResBuildingErrorView {
    PhpError(Seq<char>),
}

/// What went wrong while a response was built.
#[derive(Debug, Clone, PartialEq, Eq)]
pub enum ResBuildingError {
    /// The script could not be run, or what it gave is no response.
    PhpError(String),
}

impl View for ResBuildingError {
    type V = ResBuildingErrorView;

    open spec fn view(&self) -> ResBuildingErrorView {
        match self {
            Self::PhpError(message) => ResBuildingErrorView::PhpError(message@),
        }
    }
}

impl ResBuildingError {
    /// The error in words.
    pub fn to_string(&self) -> (s: String)
        ensures
            s@ == match self@ {
                ResBuildingErrorView::PhpError(message) => "PHP error: "@ + message,
            },
    {
        match self {
            Self::PhpError(message) => {
                let mut s = String::from_str("PHP error: ");
                s.append(message.as_str());
                s
            },
        }
    }
}

/// The name of the file of a script, or nothing where the path of the script
/// names no file: where it ends in a slash, in `.` or in `..`.
pub open spec fn script_file_name(path: Seq<char>) -> Option<Seq<char>> {
    let name = file_name(path);
    if name.len() == 0 || name == seq!['.'] || name == seq!['.', '.'] {
        None
    } else {
        Some(name)
    }
}

/// The name of the file of a script.
pub fn script_file(path: &str) -> (r: Option<String>)
    ensures
        match r {
            Some(name) => script_file_name(path@) == Some(name@),
            None => script_file_name(path@) is None,
        },
{
    let name = file_name_of(path);
    proof {
        reveal_strlit("");
        reveal_strlit(".");
        reveal_strlit("..");
        assert(""@ =~= Seq::<char>::empty());
        assert("."@ =~= seq!['.']);
        assert(".."@ =~= seq!['.', '.']);
        if name@.len() == 0 {
            assert(name@ =~= Seq::<char>::empty());
        }
    }
    if str_eq(name.as_str(), "") || str_eq(name.as_str(), ".") || str_eq(name.as_str(), "..") {
        None
    } else {
        Some(name)
    }
}

/// What a script is run with, as characters.
pub struct PhpParamsView {
    pub script_path: Seq<char>,
    pub script_query: Seq<char>,
    pub user: Option<Seq<char>>,
    pub client_ip: Seq<char>,
    pub verb: ReqVerb,
    pub server_name: Seq<char>,
    pub server_port: u16,
    pub version: Seq<char>,
}

/// What a script is run with.
pub struct PhpScriptParams<'a> {
    /// The path of the script in the file system.
    pub script_path: &'a str,
    /// The query of the request.
    pub script_query: &'a str,
    /// The credentials that the sender gave and that were accepted.
    pub used_credentials: Option<(String, String)>,
    /// The address of the sender.
    pub client_ip: &'a str,
    /// The verb of the request.
    pub verb: &'a ReqVerb,
    /// The host that the server is bound to.
    pub server_name: &'a str,
    /// The port that the server is bound to.
    pub server_port: u16,
    /// The version of the request.
    pub version: &'a str,
}

impl<'a> View for PhpScriptParams<'a> {
    type V = PhpParamsView;

    open spec fn view(&self) -> PhpParamsView {
        PhpParamsView {
            script_path: self.script_path@,
            script_query: self.script_query@,
            user: match self.used_credentials {
                Some(c) => Some(c.0@),
                None => None,
            },
            client_ip: self.client_ip@,
            verb: *self.verb,
            server_name: self.server_name@,
            server_port: self.server_port,
            version: self.version@,
        }
    }
}

/// The environment of a script whose file is named `script_file`: the
/// variables of the Common Gateway Interface, in this order.
pub open spec fn php_env(p: PhpParamsView, script_file: Seq<char>) -> Seq<(Seq<char>, Seq<char>)> {
    seq![
        (
            "AUTH_TYPE"@,
            if p.user is Some {
                "Basic"@
            } else {
                Seq::<char>::empty()
            },
        ),
        ("CONTENT_LENGTH"@, Seq::<char>::empty()),
        ("CONTENT_TYPE"@, Seq::<char>::empty()),
        ("GATEWAY_INTERFACE"@, "1.1"@),
        ("PATH_INFO"@, Seq::<char>::empty()),
        ("PATH_TRANSLATED"@, Seq::<char>::empty()),
        ("QUERY_STRING"@, p.script_query),
        ("REMOTE_ADDR"@, p.client_ip),
        ("REMOTE_HOST"@, p.client_ip),
        ("REMOTE_IDENT"@, Seq::<char>::empty()),
        (
            "REMOTE_USER"@,
            match p.user {
                Some(user) => user,
                None => Seq::<char>::empty(),
            },
        ),
        ("REQUEST_METHOD"@, p.verb.wire()),
        ("SCRIPT_NAME"@, Seq::<char>::empty()),
        ("SCRIPT_PATH"@, script_file),
        ("SCRIPT_FILENAME"@, p.script_path),
        ("SERVER_NAME"@, p.server_name),
        ("SERVER_PORT"@, decimal(p.server_port as nat)),
        ("SERVER_PROTOCOL"@, p.version),
        ("SERVER_SOFTWARE"@, server_name()),
        ("REDIRECT_STATUS"@, "200"@),
    ]
}

/// Variables as characters.
pub open spec fn env_view(v: Seq<(String, String)>) -> Seq<(Seq<char>, Seq<char>)> {
    Seq::new(v.len(), |i: int| (v[i].0@, v[i].1@))
}

/// Appends one variable.
fn push_var(env: &mut Vec<(String, String)>, name: &str, value: &str)
    ensures
        env_view(final(env)@) == env_view(old(env)@).push((name@, value@)),
{
    env.push((String::from_str(name), String::from_str(value)));
    proof {
        assert(env_view(env@) =~= env_view(old(env)@).push((name@, value@)));
    }
}

/// The environment that a script is run in. It is an error where the path of
/// the script has no final component.
pub fn php_environment(params: &PhpScriptParams<'_>) -> (r: Result<
    Vec<(String, String)>,
    ResBuildingError,
>)
    ensures
        match script_file_name(params@.script_path) {
            Some(file) => r matches Ok(env) && env_view(env@) == php_env(params@, file),
            None => r matches Err(e) && e@ == ResBuildingErrorView::PhpError(
                "Invalid script path"@,
            ),
        },
{
    let file = match script_file(params.script_path) {
        Some(f) => f,
        None => {
            return Err(ResBuildingError::PhpError(String::from_str("Invalid script path")));
        },
    };
    proof {
        reveal_strlit("");
        assert(""@ =~= Seq::<char>::empty());
    }
    let mut env: Vec<(String, String)> = Vec::new();
    let verb = params.verb.to_string();
    let port = decimal_string(params.server_port as u64);
    match &params.used_credentials {
        Some(c) => {
            push_var(&mut env, "AUTH_TYPE", "Basic");
        },
        None => {
            push_var(&mut env, "AUTH_TYPE", "");
        },
    }
    push_var(&mut env, "CONTENT_LENGTH", "");
    push_var(&mut env, "CONTENT_TYPE", "");
    push_var(&mut env, "GATEWAY_INTERFACE", "1.1");
    push_var(&mut env, "PATH_INFO", "");
    push_var(&mut env, "PATH_TRANSLATED", "");
    push_var(&mut env, "QUERY_STRING", params.script_query);
    push_var(&mut env, "REMOTE_ADDR", params.client_ip);
    push_var(&mut env, "REMOTE_HOST", params.client_ip);
    push_var(&mut env, "REMOTE_IDENT", "");
    match &params.used_credentials {
        Some(c) => {
            push_var(&mut env, "REMOTE_USER", c.0.as_str());
        },
        None => {
            push_var(&mut env, "REMOTE_USER", "");
        },
    }
    push_var(&mut env, "REQUEST_METHOD", verb.as_str());
    push_var(&mut env, "SCRIPT_NAME", "");
    push_var(&mut env, "SCRIPT_PATH", file.as_str());
    push_var(&mut env, "SCRIPT_FILENAME", params.script_path);
    push_var(&mut env, "SERVER_NAME", params.server_name);
    push_var(&mut env, "SERVER_PORT", port.as_str());
    push_var(&mut env, "SERVER_PROTOCOL", params.version);
    push_var(&mut env, "SERVER_SOFTWARE", "rust-http-server");
    push_var(&mut env, "REDIRECT_STATUS", "200");
    proof {
        assert(env_view(env@) =~= php_env(params@, file@));
    }
    Ok(env)
}

/// What running a script gave, as characters and bytes.
pub struct PhpOutputView {
    pub success: bool,
    pub status: Seq<char>,
    pub stdout: Seq<u8>,
    pub stderr: Seq<u8>,
}

/// What running a script gave.
pub struct PhpOutput {
    /// Whether the script ended well.
    pub success: bool,
    /// How the script ended, in words.
    pub status: String,
    /// What the script wrote to its output.
    pub stdout: Vec<u8>,
    /// What the script wrote to its error output.
    pub stderr: Vec<u8>,
}

impl View for PhpOutput {
    type V = PhpOutputView;

    open spec fn view(&self) -> PhpOutputView {
        PhpOutputView {
            success: self.success,
            status: self.status@,
            stdout: self.stdout@,
            stderr: self.stderr@,
        }
    }
}

/// The index at which the first empty line begins, which is the first
/// `\r\n\r\n`, or the length where there is none.
pub open spec fn blank_line(s: Seq<u8>) -> int
    decreases s.len(),
{
    if s.len() < 4 {
        s.len() as int
    } else if s[0] == 13 && s[1] == 10 && s[2] == 13 && s[3] == 10 {
        0
    } else {
        1 + blank_line(s.drop_first())
    }
}

/// The response that carries what a script gave. A script that did not end
/// well is an error that tells how it ended and what it wrote to its error
/// output. The output of a script is headers, an empty line and a body; the
/// headers, which must be UTF-8, become the raw headers of the response, and
/// the body its body.
pub open spec fn php_response(res: HttpResView, out: PhpOutputView) -> Result<
    HttpResView,
    ResBuildingErrorView,
> {
    if !out.success {
        Err(
            ResBuildingErrorView::PhpError(
                "php-cgi error ("@ + out.status + "): "@ + if valid_utf8(out.stderr) {
                    decode_utf8(out.stderr)
                } else {
                    Seq::<char>::empty()
                },
            ),
        )
    } else {
        let i = blank_line(out.stdout);
        if i + 4 <= out.stdout.len() && valid_utf8(out.stdout.take(i)) {
            Ok(
                HttpResView {
                    raw_headers: Some(decode_utf8(out.stdout.take(i)) + seq!['\r', '\n']),
                    body: Some(ResBodyView::Bytes(out.stdout.skip(i + 4))),
                    ..res
                },
            )
        } else {
            Err(ResBuildingErrorView::PhpError("Invalid script output"@))
        }
    }
}

/// Finds the first empty line.
pub fn find_blank_line(s: &[u8]) -> (r: usize)
    ensures
        r == blank_line(s@),
        r <= s@.len(),
{
    let mut i: usize = 0;
    proof {
        assert(s@.skip(0) == s@);
    }
    while s.len() >= 4 && i <= s.len() - 4
        invariant
            i <= s@.len(),
            blank_line(s@) == i + blank_line(s@.skip(i as int)),
        decreases s@.len() - i,
    {
        let ghost t = s@.skip(i as int);
        proof {
            assert(t[0] == s@[i as int] && t[1] == s@[i + 1] && t[2] == s@[i + 2] && t[3] == s@[i
                + 3]);
            assert(t.drop_first() == s@.skip(i + 1));
        }
        if s[i] == 13 && s[i + 1] == 10 && s[i + 2] == 13 && s[i + 3] == 10 {
            return i;
        }
        i += 1;
    }
    proof {
        lemma_blank_line_short(s@.skip(i as int));
    }
    s.len()
}

/// Bytes too few to hold an empty line hold none.
proof fn lemma_blank_line_short(s: Seq<u8>)
    requires
        s.len() < 4,
    ensures
        blank_line(s) == s.len(),
{
}

impl ResBuilder {
    /// Makes the response carry what a script gave.
    pub fn set_php_output(&mut self, output: PhpOutput) -> (r: Result<(), ResBuildingError>)
        ensures
            match php_response(old(self)@, output@) {
                Ok(res) => r is Ok && final(self)@ == res,
                Err(e) => r matches Err(x) && x@ == e && final(self)@ == old(self)@,
            },
    {
        if !output.success {
            let mut message = String::from_str("php-cgi error (");
            message.append(output.status.as_str());
            message.append("): ");
            match utf8_string(output.stderr) {
                Some(text) => {
                    message.append(text.as_str());
                },
                None => {
                    proof {
                        assert(message@ + Seq::<char>::empty() =~= message@);
                    }
                },
            }
            return Err(ResBuildingError::PhpError(message));
        }
        let i = find_blank_line(output.stdout.as_slice());
        if output.stdout.len() < 4 || i > output.stdout.len() - 4 {
            return Err(ResBuildingError::PhpError(String::from_str("Invalid script output")));
        }
        let head = copy_range(output.stdout.as_slice(), 0, i);
        let body = copy_range(output.stdout.as_slice(), i + 4, output.stdout.len());
        proof {
            assert(head@ =~= output.stdout@.take(i as int));
            assert(body@ =~= output.stdout@.skip(i + 4));
        }
        match utf8_string(head) {
            Some(mut headers) => {
                let ghost text = headers@;
                headers.push('\r');
                headers.push('\n');
                proof {
                    assert(headers@ =~= text + seq!['\r', '\n']);
                }
                self.res.set_raw_headers(headers);
                self.res.set_body(Some(ResBody::Bytes(body)));
                Ok(())
            },
            None => Err(ResBuildingError::PhpError(String::from_str("Invalid script output"))),
        }
    }
}

} // verus!
