//! Serving a connection.
//!
//! What the server decides is here; what it reads and writes is not. The
//! settings say what is served and to whom. A connection takes what happened
//! outside, one event at a time, and says what is to be done next.

use crate::http_header::headers_get;
use crate::http_header::value::mime_guessed;
use crate::http_header::value::HeaderValueView;
use crate::http_header::value::MimeView;
use crate::http_header::value::ParsedView;
use crate::http_header::value::SimpleValueView;
use crate::http_header::EntityHeader;
use crate::http_header::HeaderNameView;
use crate::http_header::HeaderValue;
use crate::http_header::ReqHeader;
use crate::http_header::ReqOnlyHeader;
use crate::http_header::ResHeader;
use crate::http_header::SimpleHeaderValue;
use crate::http_req::ReqHead;
use crate::http_req::ReqHeadView;
use crate::http_req::ReqTarget;
use crate::http_req::ReqTargetView;
use crate::http_req::ReqVerb;
use crate::http_res::HttpRes;
use crate::http_res::HttpResView;
use crate::http_res::ResBody;
use crate::http_res::ResBodyView;
use crate::req_parser::head_quality_texts;
use crate::req_parser::parsed_head;
use crate::req_parser::step;
use crate::req_parser::utils::readings_view;
use crate::req_parser::utils::texts;
use crate::req_parser::utils::ReadingsView;
use crate::req_parser::FloatReading;
use crate::req_parser::ReqHeadParser;
use crate::req_parser::ReqHeadParserState;
use crate::req_parser::ReqHeadParserView;
use crate::req_parser::SupportedEncoding;
use crate::res_builder::basic_challenge;
use crate::res_builder::built;
use crate::res_builder::html_type;
use crate::res_builder::lemma_built_headers;
use crate::res_builder::lemma_built_keeps;
use crate::res_builder::lemma_unauthorized_challenge;
use crate::http_header::lemma_headers_with;
use crate::http_header::headers_with;
use crate::res_builder::compression_for;
use crate::res_builder::entries_view;
use crate::res_builder::env_view;
use crate::res_builder::error_response;
use crate::res_builder::file_compression;
use crate::res_builder::file_response;
use crate::res_builder::listing_response;
use crate::res_builder::script_file_name;
use crate::paths::is_under;
use crate::paths::path_under;
use crate::res_builder::php_env;
use crate::res_builder::php_environment;
use crate::res_builder::php_response;
use crate::res_builder::EntryView;
use crate::res_builder::PhpOutput;
use crate::res_builder::PhpOutputView;
use crate::res_builder::PhpParamsView;
use crate::res_builder::PhpScriptParams;
use crate::res_builder::ResBuilder;
use crate::http_header::HeadersView;
use crate::text::chars_vec;
use crate::text::copy_chars;
use crate::text::find_char;
use crate::text::index_of;
use crate::text::split;
use crate::text::split_chars;
use crate::text::str_eq;
use crate::text::string_from_chars;
use crate::text::views;
use crate::utils::are_mime_compatible;
use crate::utils::mime_compatible;
use vstd::prelude::*;
use vstd::string::StringExecFns;

verus! {

/// The longest line of a head that is read, in bytes. A line that is longer
/// comes in pieces.
pub const MAX_LINE_LENGTH: u64 = 8000;

/// Pairs of a user and a password, as characters.
pub type CredsView = Seq<(Seq<char>, Seq<char>)>;

/// The pairs of a vector of credentials.
pub open spec fn creds_view(v: Seq<(String, String)>) -> CredsView {
    Seq::new(v.len(), |i: int| (v[i].0@, v[i].1@))
}

/// The settings of a server, as characters.
pub struct SettingsView {
    pub host: Seq<char>,
    pub port: u16,
    pub document_root: Seq<char>,
    pub allow_dir_listing: bool,
    pub ssl_cert_path: Option<Seq<char>>,
    pub ssl_key_path: Option<Seq<char>>,
    pub authentication_credentials: Option<CredsView>,
    pub php_cgi_binary: Option<Seq<char>>,
}

/// The settings of a server. They are made once and do not change.
#[derive(Debug, Clone)]
pub struct Settings {
    /// The host of the address that the server is bound to.
    pub host: String,
    /// The port of the address that the server is bound to.
    pub port: u16,
    /// The directory under which everything that is served lies, as an
    /// absolute path in its canonical form.
    pub document_root: String,
    /// Whether directories are listed.
    pub allow_dir_listing: bool,
    /// The file of the certificate, for TLS.
    pub ssl_cert_path: Option<String>,
    /// The file of the private key, for TLS.
    pub ssl_key_path: Option<String>,
    /// The credentials that are accepted; without them everyone is served.
    pub authentication_credentials: Option<Vec<(String, String)>>,
    /// The interpreter that runs scripts; without it no script is run.
    pub php_cgi_binary: Option<String>,
}

impl View for Settings {
    type V = SettingsView;

    open spec fn view(&self) -> SettingsView {
        SettingsView {
            host: self.host@,
            port: self.port,
            document_root: self.document_root@,
            allow_dir_listing: self.allow_dir_listing,
            ssl_cert_path: match self.ssl_cert_path {
                Some(p) => Some(p@),
                None => None,
            },
            ssl_key_path: match self.ssl_key_path {
                Some(p) => Some(p@),
                None => None,
            },
            authentication_credentials: match self.authentication_credentials {
                Some(c) => Some(creds_view(c@)),
                None => None,
            },
            php_cgi_binary: match self.php_cgi_binary {
                Some(p) => Some(p@),
                None => None,
            },
        }
    }
}

/// The credentials that an item spells: the user before the first colon and
/// the password after it, neither of them empty.
pub open spec fn credential_of(item: Seq<char>) -> Option<(Seq<char>, Seq<char>)> {
    let i = index_of(item, ':');
    if 0 < i && i + 1 < item.len() {
        Some((item.take(i), item.skip(i + 1)))
    } else {
        None
    }
}

/// The credentials that items spell, in order. The first item that spells
/// none is an error that names it.
pub open spec fn credentials_from(items: Seq<Seq<char>>) -> Result<CredsView, Seq<char>>
    decreases items.len(),
{
    if items.len() == 0 {
        Ok(CredsView::empty())
    } else {
        match credentials_from(items.drop_last()) {
            Err(e) => Err(e),
            Ok(creds) => match credential_of(items.last()) {
                Some(c) => Ok(creds.push(c)),
                None => Err("Invalid credential tuple: "@ + items.last()),
            },
        }
    }
}

/// An error among the first items is the error of all items.
proof fn lemma_credentials_error(items: Seq<Seq<char>>, i: int)
    requires
        0 <= i <= items.len(),
        credentials_from(items.take(i)) is Err,
    ensures
        credentials_from(items) == credentials_from(items.take(i)),
    decreases items.len() - i,
{
    if i < items.len() {
        assert(items.take(i + 1).drop_last() == items.take(i));
        lemma_credentials_error(items, i + 1);
    } else {
        assert(items.take(i) == items);
    }
}

/// The credentials that an argument of the command line spells: none without
/// the argument; otherwise the items between commas, each as `user:password`.
pub open spec fn parsed_credentials(argument: Option<Seq<char>>) -> Result<
    Option<CredsView>,
    Seq<char>,
> {
    match argument {
        None => Ok(None),
        Some(list) => match credentials_from(split(list, ',')) {
            Ok(creds) => Ok(Some(creds)),
            Err(e) => Err(e),
        },
    }
}

/// Reads the credentials that are accepted from an argument of the command
/// line.
pub fn parse_authentication_credentials(argument: Option<String>) -> (r: Result<
    Option<Vec<(String, String)>>,
    String,
>)
    ensures
        match parsed_credentials(
            match argument {
                Some(a) => Some(a@),
                None => None,
            },
        ) {
            Ok(Some(creds)) => r matches Ok(Some(x)) && creds_view(x@) == creds,
            Ok(None) => r matches Ok(None),
            Err(e) => r matches Err(x) && x@ == e,
        },
{
    let list = match argument {
        Some(a) => a,
        None => {
            return Ok(None);
        },
    };
    let chars = chars_vec(list.as_str());
    let items = split_chars(chars.as_slice(), ',');
    let ghost all = split(list@, ',');
    let mut creds: Vec<(String, String)> = Vec::new();
    let mut i: usize = 0;
    proof {
        assert(views(items@).len() == items@.len());
        assert(all.take(0) =~= Seq::<Seq<char>>::empty());
        assert(creds_view(creds@) =~= CredsView::empty());
    }
    while i < items.len()
        invariant
            i <= items@.len(),
            views(items@) == all,
            all == split(list@, ','),
            all.len() == items@.len(),
            argument == Some(list),
            credentials_from(all.take(i as int)) == Ok::<CredsView, Seq<char>>(creds_view(creds@)),
        decreases items@.len() - i,
    {
        proof {
            assert(views(items@)[i as int] == items@[i as int]@);
            assert(all.take(i + 1).drop_last() == all.take(i as int));
            assert(all.take(i + 1).last() == items@[i as int]@);
            assert(items@[i as int]@.skip(0) == items@[i as int]@);
        }
        let item = items[i].as_slice();
        let colon = find_char(item, 0, ':');
        if 0 < colon && colon < item.len() - 1 {
            let user = copy_chars(item, 0, colon);
            let password = copy_chars(item, colon + 1, item.len());
            proof {
                assert(user@ =~= item@.take(colon as int));
                assert(password@ =~= item@.skip(colon + 1));
            }
            let ghost before = creds_view(creds@);
            let u = string_from_chars(user.as_slice());
            let p = string_from_chars(password.as_slice());
            creds.push((u, p));
            proof {
                assert(creds_view(creds@) =~= before.push((user@, password@)));
            }
        } else {
            let mut message = String::from_str("Invalid credential tuple: ");
            let text = string_from_chars(item);
            message.append(text.as_str());
            proof {
                assert(credentials_from(all.take(i + 1)) == Err::<CredsView, Seq<char>>(message@));
                lemma_credentials_error(all, i + 1);
            }
            return Err(message);
        }
        i += 1;
    }
    proof {
        assert(all.take(i as int) == all);
    }
    Ok(Some(creds))
}

/// Whether a sender is served: where credentials are asked for, the sender
/// must have given a pair that is among them.
pub open spec fn authorized(
    accepted: Option<CredsView>,
    given: Option<(Seq<char>, Seq<char>)>,
) -> bool {
    match accepted {
        None => true,
        Some(list) => match given {
            None => false,
            Some(c) => list.contains(c),
        },
    }
}

/// Tells whether a sender who gave these credentials is served.
pub fn is_authorized(settings: &Settings, given: Option<&(String, String)>) -> (r: bool)
    ensures
        r == authorized(
            settings@.authentication_credentials,
            match given {
                Some(c) => Some((c.0@, c.1@)),
                None => None,
            },
        ),
{
    let list = match &settings.authentication_credentials {
        None => {
            return true;
        },
        Some(list) => list,
    };
    let c = match given {
        None => {
            return false;
        },
        Some(c) => c,
    };
    let ghost view = creds_view(list@);
    let mut i: usize = 0;
    while i < list.len()
        invariant
            i <= list@.len(),
            view == creds_view(list@),
            settings@.authentication_credentials == Some(view),
            given == Some(c),
            forall|k: int| 0 <= k < i ==> view[k] != (c.0@, c.1@),
        decreases list@.len() - i,
    {
        proof {
            assert(view[i as int] == (list@[i as int].0@, list@[i as int].1@));
        }
        if str_eq(list[i].0.as_str(), c.0.as_str()) && str_eq(list[i].1.as_str(), c.1.as_str()) {
            proof {
                assert(0 <= i < view.len() && view[i as int] == (c.0@, c.1@));
                assert(view.contains((c.0@, c.1@)));
            }
            return true;
        }
        i += 1;
    }
    proof {
        assert(!view.contains((c.0@, c.1@)));
    }
    false
}

/// Whether one of the media types of a list covers the media type on offer.
pub open spec fn list_covers(list: ParsedView, actual: MimeView) -> bool {
    exists|i: int|
        0 <= i < list.len() && match (#[trigger] list[i]).0 {
            SimpleValueView::Mime(m) => mime_compatible(m, actual),
            _ => false,
        }
}

/// Whether a response may be sent as it is, given what the sender accepts.
/// Only a response whose `Content-Type` is a media type can be refused, and
/// only by a sender who says what it accepts: a single media type must cover
/// the one on offer, and of a list one media type must. The qualities of the
/// list are not looked at.
pub open spec fn acceptable(
    accept: Option<HeaderValueView>,
    content_type: Option<HeaderValueView>,
) -> bool {
    match (accept, content_type) {
        (Some(a), Some(HeaderValueView::Simple(SimpleValueView::Mime(actual)))) => match a {
            HeaderValueView::Simple(SimpleValueView::Mime(m)) => mime_compatible(m, actual),
            HeaderValueView::Parsed(list) => list_covers(list, actual),
            _ => true,
        },
        _ => true,
    }
}

/// Tells whether a response of this `Content-Type` may be sent to a sender
/// with this `Accept`.
pub fn is_acceptable(accept: Option<&HeaderValue>, content_type: Option<&HeaderValue>) -> (r: bool)
    ensures
        r == acceptable(
            match accept {
                Some(v) => Some(v@),
                None => None,
            },
            match content_type {
                Some(v) => Some(v@),
                None => None,
            },
        ),
{
    let actual = match content_type {
        Some(HeaderValue::Simple(SimpleHeaderValue::Mime(m))) => m,
        _ => {
            return true;
        },
    };
    match accept {
        Some(HeaderValue::Simple(SimpleHeaderValue::Mime(m))) => are_mime_compatible(m, actual),
        Some(HeaderValue::Parsed(list)) => {
            let ghost view = list@;
            let mut i: usize = 0;
            while i < list.0.len()
                invariant
                    i <= list.0@.len(),
                    view == list@,
                    accept == Some(&HeaderValue::Parsed(*list)),
                    content_type == Some(&HeaderValue::Simple(SimpleHeaderValue::Mime(*actual))),
                    forall|k: int|
                        0 <= k < i ==> !(match (#[trigger] view[k]).0 {
                            SimpleValueView::Mime(m) => mime_compatible(m, actual@),
                            _ => false,
                        }),
                decreases list.0@.len() - i,
            {
                proof {
                    assert(view[i as int].0 == list.0@[i as int].0@);
                }
                let covers = match &list.0[i].0 {
                    SimpleHeaderValue::Mime(m) => are_mime_compatible(m, actual),
                    _ => false,
                };
                if covers {
                    proof {
                        assert(match view[i as int].0 {
                            SimpleValueView::Mime(m) => mime_compatible(m, actual@),
                            _ => false,
                        });
                    }
                    return true;
                }
                i += 1;
            }
            false
        },
        _ => true,
    }
}

/// How reading from the file system failed.
#[derive(Debug, Clone, Copy, PartialEq, Eq, Structural)]
pub enum IoFailure {
    /// There is no such file or directory.
    NotFound,
    /// The file or directory may not be read.
    PermissionDenied,
    /// Anything else.
    Other,
}

/// The status that tells of a failure to read.
pub open spec fn failure_status(failure: IoFailure) -> u16 {
    match failure {
        IoFailure::NotFound => 404,
        IoFailure::PermissionDenied => 403,
        IoFailure::Other => 500,
    }
}

/// The status that tells of a failure to read.
pub fn io_error_status(failure: IoFailure) -> (r: u16)
    ensures
        r == failure_status(failure),
{
    match failure {
        IoFailure::NotFound => 404,
        IoFailure::PermissionDenied => 403,
        IoFailure::Other => 500,
    }
}

/// What was found at a path in the file system, as characters.
pub struct ProbeView {
    pub canonical: Seq<char>,
    pub is_dir: bool,
}

/// What was found at a path in the file system.
#[derive(Debug, Clone, PartialEq, Eq)]
pub struct Probe {
    /// The path in its canonical form.
    pub canonical: String,
    /// Whether a directory is there.
    pub is_dir: bool,
}

impl View for Probe {
    type V = ProbeView;

    open spec fn view(&self) -> ProbeView {
        ProbeView { canonical: self.canonical@, is_dir: self.is_dir }
    }
}

/// What happened outside, as characters and bytes.
pub enum EventView {
    Line(Seq<u8>),
    ReadFailed,
    Floats(ReadingsView),
    Probed(Result<ProbeView, IoFailure>),
    Listed(Result<Seq<EntryView>, IoFailure>),
    Loaded(Result<ResBodyView, IoFailure>),
    ScriptRan(Result<PhpOutputView, Seq<char>>),
}

/// What happened outside.
pub enum Event {
    /// A line was read; no bytes at all mean that the sender has closed.
    Line(Vec<u8>),
    /// Reading failed.
    ReadFailed,
    /// The spellings asked for were read as numbers.
    Floats(Vec<FloatReading>),
    /// The path asked for was looked up.
    Probed(Result<Probe, IoFailure>),
    /// The directory asked for was read: the name of each entry and whether
    /// it is a directory.
    Listed(Result<Vec<(String, bool)>, IoFailure>),
    /// The file asked for was read or opened.
    Loaded(Result<ResBody, IoFailure>),
    /// The script asked for was run, or could not be, with the reason.
    ScriptRan(Result<PhpOutput, String>),
}

impl View for Event {
    type V = EventView;

    open spec fn view(&self) -> EventView {
        match self {
            Self::Line(bytes) => EventView::Line(bytes@),
            Self::ReadFailed => EventView::ReadFailed,
            Self::Floats(readings) => EventView::Floats(readings_view(readings@)),
            Self::Probed(r) => EventView::Probed(
                match r {
                    Ok(p) => Ok(p@),
                    Err(f) => Err(*f),
                },
            ),
            Self::Listed(r) => EventView::Listed(
                match r {
                    Ok(entries) => Ok(entries_view(entries@)),
                    Err(f) => Err(*f),
                },
            ),
            Self::Loaded(r) => EventView::Loaded(
                match r {
                    Ok(body) => Ok(body@),
                    Err(f) => Err(*f),
                },
            ),
            Self::ScriptRan(r) => EventView::ScriptRan(
                match r {
                    Ok(out) => Ok(out@),
                    Err(e) => Err(e@),
                },
            ),
        }
    }
}

/// What is to be done outside, as characters.
pub enum TaskView {
    ReadLine,
    ReadFloats(Seq<Seq<char>>),
    Probe(Seq<char>),
    ListDirectory(Seq<char>),
    LoadFile { path: Seq<char>, compress: Option<SupportedEncoding> },
    RunScript { binary: Seq<char>, environment: Seq<(Seq<char>, Seq<char>)> },
    Respond { res: HttpResView, close: bool },
    Close,
}

/// What is to be done outside. What comes of it is handed back as the next
/// event.
pub enum Task {
    /// Read one line, up to its line feed and at most `MAX_LINE_LENGTH` bytes
    /// of it.
    ReadLine,
    /// Read each spelling as a floating-point number.
    ReadFloats(Vec<String>),
    /// Find the canonical form of the path and whether a directory is there.
    Probe(String),
    /// Read the entries of the directory.
    ListDirectory(String),
    /// Read the file, or open it where it is long, after compressing it in
    /// the encoding given, where one is given.
    LoadFile { path: String, compress: Option<SupportedEncoding> },
    /// Run the interpreter in this environment, which is cleared first.
    RunScript { binary: String, environment: Vec<(String, String)> },
    /// Write the response; then close the connection, or read the next line.
    Respond { res: HttpRes, close: bool },
    /// Close the connection.
    Close,
}

impl View for Task {
    type V = TaskView;

    open spec fn view(&self) -> TaskView {
        match self {
            Self::ReadLine => TaskView::ReadLine,
            Self::ReadFloats(spellings) => TaskView::ReadFloats(texts(spellings@)),
            Self::Probe(path) => TaskView::Probe(path@),
            Self::ListDirectory(path) => TaskView::ListDirectory(path@),
            Self::LoadFile { path, compress } => TaskView::LoadFile {
                path: path@,
                compress: *compress,
            },
            Self::RunScript { binary, environment } => TaskView::RunScript {
                binary: binary@,
                environment: env_view(environment@),
            },
            Self::Respond { res, close } => TaskView::Respond { res: res@, close: *close },
            Self::Close => TaskView::Close,
        }
    }
}

/// What a connection waits for.
#[derive(Debug, Clone, Copy, PartialEq, Eq, Structural)]
pub enum Phase {
    /// A line of the head.
    Head,
    /// The numbers that the qualities of the head were read as.
    Floats,
    /// What is at the path of the request.
    Probe,
    /// The entries of a directory.
    Listing,
    /// The contents of a file.
    File,
    /// What a script gave.
    Script,
    /// Nothing: the connection is closed.
    Closed,
}

/// A connection, as characters.
pub struct ConnectionView {
    pub settings: SettingsView,
    pub peer: Seq<char>,
    pub parser: ReqHeadParserView,
    pub phase: Phase,
    pub head: Option<ReqHeadView>,
    pub path: Seq<char>,
    pub compress: Option<SupportedEncoding>,
}

/// The version of the responses that tell of an error.
pub open spec fn error_version() -> Seq<char> {
    "HTTP/1.1"@
}

/// A response of that version with the status 200, without headers and without
/// body.
pub open spec fn new_response(version: Seq<char>) -> HttpResView {
    HttpResView {
        version,
        status_code: 200,
        headers: HeadersView::empty(),
        body: None,
        raw_headers: None,
    }
}

/// The response that tells of an error with a page.
pub open spec fn error_page_response(status_code: u16, date: Seq<char>) -> HttpResView {
    built(error_response(new_response(error_version()), status_code, true), date)
}

/// The response that tells that no media type on offer is accepted. It has no
/// body.
pub open spec fn unacceptable_response(date: Seq<char>) -> HttpResView {
    built(error_response(new_response(error_version()), 415, false), date)
}

/// The connection after a request is done with: it waits for the next head,
/// or is closed.
pub open spec fn settled(c: ConnectionView, close: bool) -> ConnectionView {
    ConnectionView {
        parser: ReqHeadParser::fresh(),
        phase: if close {
            Phase::Closed
        } else {
            Phase::Head
        },
        head: None,
        path: Seq::<char>::empty(),
        compress: None,
        ..c
    }
}

/// A connection that is closed, and the task to close it.
pub open spec fn closed(c: ConnectionView) -> (ConnectionView, TaskView) {
    (settled(c, true), TaskView::Close)
}

/// What becomes of a head that could not be read: the sender is told of a bad
/// request, and the connection goes on.
pub open spec fn refused(c: ConnectionView, date: Seq<char>) -> (ConnectionView, TaskView) {
    (settled(c, false), TaskView::Respond { res: error_page_response(400, date), close: false })
}

/// What becomes of a response to a request whose head is `h`: it is sent as
/// it is where the sender accepts its media type, and the sender is told that
/// it does not otherwise; the connection is closed after it where the sender
/// asked for that.
pub open spec fn answered(
    c: ConnectionView,
    h: ReqHeadView,
    res: HttpResView,
    date: Seq<char>,
) -> (ConnectionView, TaskView) {
    let close = h.should_close();
    let sent = if acceptable(
        headers_get(h.headers, HeaderNameView::ReqOnly(ReqOnlyHeader::Accept)),
        headers_get(res.headers, HeaderNameView::Entity(EntityHeader::ContentType)),
    ) {
        res
    } else {
        unacceptable_response(date)
    };
    (settled(c, close), TaskView::Respond { res: sent, close })
}

/// Whether a path names a script: it ends in `.php`.
pub open spec fn is_script(path: Seq<char>) -> bool {
    path.len() >= 4 && path.skip(path.len() - 4) == seq!['.', 'p', 'h', 'p']
}

/// What a line does to a connection that waits for one. No bytes at all close
/// the connection, and so does a line for a parser that is done. A line that
/// the parser refuses is answered with a bad
/// request. The empty line ends the head, and the qualities of the head are
/// to be read next. After any other line the next line is read.
pub open spec fn on_line(c: ConnectionView, bytes: Seq<u8>, date: Seq<char>) -> (
    ConnectionView,
    TaskView,
) {
    if bytes.len() == 0 || c.parser.state == ReqHeadParserState::Done {
        closed(c)
    } else {
        match step(c.parser, bytes) {
            Err(_) => refused(c, date),
            Ok(p) => if p.state == ReqHeadParserState::Done {
                (
                    ConnectionView { parser: p, phase: Phase::Floats, ..c },
                    TaskView::ReadFloats(head_quality_texts(p.raw.headers)),
                )
            } else {
                (ConnectionView { parser: p, ..c }, TaskView::ReadLine)
            },
        }
    }
}

/// What the readings of the qualities do to a connection that waits for them:
/// the head is read. A head that is in error is answered with a bad request.
/// A sender who is not served is answered with the status 401, a verb other
/// than `GET` with 405, the target `*` with 400. Otherwise the path of the
/// target, behind the document root, is to be looked up.
pub open spec fn on_floats(c: ConnectionView, readings: ReadingsView, date: Seq<char>) -> (
    ConnectionView,
    TaskView,
) {
    match parsed_head(c.parser.raw, readings) {
        Err(_) => refused(c, date),
        Ok(h) => if !authorized(c.settings.authentication_credentials, h.credentials) {
            answered(c, h, error_page_response(401, date), date)
        } else if h.verb != ReqVerb::Get {
            answered(c, h, error_page_response(405, date), date)
        } else {
            match h.target {
                ReqTargetView::All => answered(c, h, error_page_response(400, date), date),
                ReqTargetView::Path(path) => (
                    ConnectionView { phase: Phase::Probe, head: Some(h), ..c },
                    TaskView::Probe(c.settings.document_root + path.decoded),
                ),
            }
        },
    }
}

/// What a script is run with for the request whose head is `h`.
pub open spec fn script_params(c: ConnectionView, h: ReqHeadView, script: Seq<char>) -> PhpParamsView {
    PhpParamsView {
        script_path: script,
        script_query: match h.target {
            ReqTargetView::Path(path) => path.query,
            ReqTargetView::All => Seq::<char>::empty(),
        },
        user: match h.credentials {
            Some(c) => Some(c.0),
            None => None,
        },
        client_ip: c.peer,
        verb: h.verb,
        server_name: c.settings.host,
        server_port: c.settings.port,
        version: h.version,
    }
}

/// What a look at the path does to a connection that waits for it. A look
/// that failed is answered with the status of the failure. A path that does
/// not lie under the document root is answered with 403. A directory is
/// listed where the settings allow it and answered with 403 where they do
/// not. A script is run where an interpreter is set. Any other file is
/// loaded, to be compressed where its media type is a text and the sender
/// accepts an encoding.
pub open spec fn on_probe(
    c: ConnectionView,
    h: ReqHeadView,
    probe: Result<ProbeView, IoFailure>,
    date: Seq<char>,
) -> (ConnectionView, TaskView) {
    match probe {
        Err(f) => answered(c, h, error_page_response(failure_status(f), date), date),
        Ok(p) => if !path_under(p.canonical, c.settings.document_root) {
            answered(c, h, error_page_response(403, date), date)
        } else if p.is_dir {
            if c.settings.allow_dir_listing {
                (
                    ConnectionView { phase: Phase::Listing, path: p.canonical, ..c },
                    TaskView::ListDirectory(p.canonical),
                )
            } else {
                answered(c, h, error_page_response(403, date), date)
            }
        } else if c.settings.php_cgi_binary is Some && is_script(p.canonical) {
            match script_file_name(p.canonical) {
                Some(file) => (
                    ConnectionView { phase: Phase::Script, path: p.canonical, ..c },
                    TaskView::RunScript {
                        binary: c.settings.php_cgi_binary.unwrap(),
                        environment: php_env(script_params(c, h, p.canonical), file),
                    },
                ),
                None => answered(c, h, error_page_response(500, date), date),
            }
        } else {
            let compress = file_compression(mime_guessed(p.canonical), h.encoding);
            (
                ConnectionView { phase: Phase::File, path: p.canonical, compress, ..c },
                TaskView::LoadFile { path: p.canonical, compress },
            )
        },
    }
}

/// The path of the request as the sender wrote it, decoded.
pub open spec fn requested_path(h: ReqHeadView) -> Seq<char> {
    match h.target {
        ReqTargetView::Path(path) => path.decoded,
        ReqTargetView::All => Seq::<char>::empty(),
    }
}

/// What an event does to a connection, and what is to be done next. `date` is
/// the date and time for the header `Date` of a response.
///
/// A connection that waits for something takes the event that brings it; any
/// other event closes the connection, and a closed connection stays closed.
pub open spec fn advance(c: ConnectionView, event: EventView, date: Seq<char>) -> (
    ConnectionView,
    TaskView,
) {
    match (c.phase, event, c.head) {
        (Phase::Head, EventView::Line(bytes), _) => on_line(c, bytes, date),
        (Phase::Floats, EventView::Floats(readings), _) => on_floats(c, readings, date),
        (Phase::Probe, EventView::Probed(probe), Some(h)) => on_probe(c, h, probe, date),
        (Phase::Listing, EventView::Listed(Err(f)), Some(h)) => answered(
            c,
            h,
            error_page_response(failure_status(f), date),
            date,
        ),
        (Phase::Listing, EventView::Listed(Ok(entries)), Some(h)) => answered(
            c,
            h,
            built(listing_response(new_response(h.version), entries, requested_path(h)), date),
            date,
        ),
        (Phase::File, EventView::Loaded(Err(f)), Some(h)) => answered(
            c,
            h,
            error_page_response(failure_status(f), date),
            date,
        ),
        (Phase::File, EventView::Loaded(Ok(body)), Some(h)) => answered(
            c,
            h,
            built(file_response(new_response(h.version), c.path, c.compress, body), date),
            date,
        ),
        (Phase::Script, EventView::ScriptRan(Err(_)), Some(h)) => answered(
            c,
            h,
            error_page_response(500, date),
            date,
        ),
        (Phase::Script, EventView::ScriptRan(Ok(out)), Some(h)) => match php_response(
            new_response(h.version),
            out,
        ) {
            Ok(res) => answered(c, h, built(res, date), date),
            Err(_) => answered(c, h, error_page_response(500, date), date),
        },
        _ => closed(c),
    }
}


/// Tells whether a path names a script.
pub fn names_script(path: &str) -> (r: bool)
    ensures
        r == is_script(path@),
{
    let chars = chars_vec(path);
    let n = chars.len();
    if n < 4 {
        return false;
    }
    let r = chars[n - 4] == '.' && chars[n - 3] == 'p' && chars[n - 2] == 'h' && chars[n - 1]
        == 'p';
    proof {
        let tail = path@.skip(n - 4);
        assert(tail[0] == chars@[n - 4] && tail[1] == chars@[n - 3] && tail[2] == chars@[n - 2]
            && tail[3] == chars@[n - 1]);
        if r {
            assert(tail =~= seq!['.', 'p', 'h', 'p']);
        }
    }
    r
}

/// The response that tells of an error with a page.
fn error_page_res(status_code: u16, date: &str) -> (r: HttpRes)
    ensures
        r@ == error_page_response(status_code, date@),
{
    let mut builder = ResBuilder::new("HTTP/1.1");
    let _ = builder.build_error_at(status_code, true, String::from_str(date));
    builder.into_res()
}

/// The response that tells that no media type on offer is accepted.
fn unacceptable_res(date: &str) -> (r: HttpRes)
    ensures
        r@ == unacceptable_response(date@),
{
    let mut builder = ResBuilder::new("HTTP/1.1");
    let _ = builder.build_error_at(415, false, String::from_str(date));
    builder.into_res()
}

/// A connection to one sender. It is told what happened outside and tells
/// what is to be done next; it reads and writes nothing itself.
pub struct Connection {
    settings: Settings,
    peer_addr: String,
    parser: ReqHeadParser,
    phase: Phase,
    head: Option<ReqHead>,
    path: String,
    compress: Option<SupportedEncoding>,
}

impl View for Connection {
    type V = ConnectionView;

    closed spec fn view(&self) -> ConnectionView {
        ConnectionView {
            settings: self.settings@,
            peer: self.peer_addr@,
            parser: self.parser@,
            phase: self.phase,
            head: match self.head {
                Some(h) => Some(h@),
                None => None,
            },
            path: self.path@,
            compress: self.compress,
        }
    }
}

impl Connection {
    /// A connection to the sender at `peer_addr` that waits for the first
    /// line of a head.
    pub fn new(settings: Settings, peer_addr: String) -> (r: Self)
        ensures
            r@ == (ConnectionView {
                settings: settings@,
                peer: peer_addr@,
                parser: ReqHeadParser::fresh(),
                phase: Phase::Head,
                head: None,
                path: Seq::<char>::empty(),
                compress: None,
            }),
    {
        Self {
            settings,
            peer_addr,
            parser: ReqHeadParser::new(),
            phase: Phase::Head,
            head: None,
            path: String::new(),
            compress: None,
        }
    }

    /// What the connection waits for.
    pub fn phase(&self) -> (r: Phase)
        ensures
            r == self@.phase,
    {
        self.phase
    }

    /// Makes the connection wait for the next head, or closes it.
    fn settle(&mut self, close: bool)
        ensures
            final(self)@ == settled(old(self)@, close),
    {
        self.parser.reset();
        self.phase = if close {
            Phase::Closed
        } else {
            Phase::Head
        };
        self.head = None;
        self.path = String::new();
        self.compress = None;
    }

    /// Closes the connection.
    fn close(&mut self) -> (t: Task)
        ensures
            (final(self)@, t@) == closed(old(self)@),
    {
        self.settle(true);
        Task::Close
    }

    /// Answers a head that could not be read.
    fn refuse(&mut self, date: &str) -> (t: Task)
        ensures
            (final(self)@, t@) == refused(old(self)@, date@),
    {
        self.settle(false);
        Task::Respond { res: error_page_res(400, date), close: false }
    }

    /// Answers the request at hand with `res`.
    fn answer(&mut self, res: HttpRes, date: &str) -> (t: Task)
        requires
            old(self)@.head is Some,
        ensures
            (final(self)@, t@) == answered(old(self)@, old(self)@.head.unwrap(), res@, date@),
    {
        let (close, fits) = match &self.head {
            Some(h) => (
                h.should_close(),
                is_acceptable(
                    h.headers().get(&ReqHeader::ReqOnly(ReqOnlyHeader::Accept)),
                    res.headers_ref().get(&ResHeader::Entity(EntityHeader::ContentType)),
                ),
            ),
            None => (true, true),
        };
        let sent = if fits {
            res
        } else {
            unacceptable_res(date)
        };
        self.settle(close);
        Task::Respond { res: sent, close }
    }

    /// Answers the request at hand with a page that tells of an error.
    fn answer_error(&mut self, status_code: u16, date: &str) -> (t: Task)
        requires
            old(self)@.head is Some,
        ensures
            (final(self)@, t@) == answered(
                old(self)@,
                old(self)@.head.unwrap(),
                error_page_response(status_code, date@),
                date@,
            ),
    {
        let res = error_page_res(status_code, date);
        self.answer(res, date)
    }

    /// Takes a line of the head.
    fn take_line(&mut self, bytes: Vec<u8>, date: &str) -> (t: Task)
        ensures
            (final(self)@, t@) == on_line(old(self)@, bytes@, date@),
    {
        if bytes.len() == 0 || self.parser.is_complete() {
            return self.close();
        }
        match self.parser.process_bytes(bytes) {
            Err(_) => self.refuse(date),
            Ok(()) => {
                if self.parser.is_complete() {
                    self.phase = Phase::Floats;
                    Task::ReadFloats(self.parser.quality_texts())
                } else {
                    Task::ReadLine
                }
            },
        }
    }

    /// Takes the readings of the qualities and reads the head.
    fn take_floats(&mut self, readings: Vec<FloatReading>, date: &str) -> (t: Task)
        ensures
            (final(self)@, t@) == on_floats(old(self)@, readings_view(readings@), date@),
    {
        let head = match self.parser.do_parse(&readings) {
            Err(_) => {
                return self.refuse(date);
            },
            Ok(h) => h,
        };
        let served = is_authorized(&self.settings, head.auth_creds());
        let get = match head.verb() {
            ReqVerb::Get => true,
            _ => false,
        };
        let path = match head.target() {
            ReqTarget::All => None,
            ReqTarget::Path(p) => {
                let mut full = self.settings.document_root.clone();
                full.append(p.decoded.as_str());
                Some(full)
            },
        };
        self.head = Some(head);
        if !served {
            let t = self.answer_error(401, date);
            t
        } else if !get {
            self.answer_error(405, date)
        } else {
            match path {
                None => self.answer_error(400, date),
                Some(full) => {
                    self.phase = Phase::Probe;
                    Task::Probe(full)
                },
            }
        }
    }

    /// Takes what was found at the path of the request.
    fn take_probe(&mut self, probe: Result<Probe, IoFailure>, date: &str) -> (t: Task)
        requires
            old(self)@.head is Some,
        ensures
            (final(self)@, t@) == on_probe(
                old(self)@,
                old(self)@.head.unwrap(),
                match probe {
                    Ok(p) => Ok(p@),
                    Err(f) => Err(f),
                },
                date@,
            ),
    {
        let p = match probe {
            Err(f) => {
                return self.answer_error(io_error_status(f), date);
            },
            Ok(p) => p,
        };
        if !is_under(p.canonical.as_str(), self.settings.document_root.as_str()) {
            return self.answer_error(403, date);
        }
        if p.is_dir {
            if self.settings.allow_dir_listing {
                self.phase = Phase::Listing;
                self.path = p.canonical.clone();
                return Task::ListDirectory(p.canonical);
            } else {
                return self.answer_error(403, date);
            }
        }
        let script = names_script(p.canonical.as_str());
        let binary = match &self.settings.php_cgi_binary {
            Some(b) => Some(b.clone()),
            None => None,
        };
        match binary {
            Some(binary) => {
                if script {
                    let environment = match &self.head {
                        Some(h) => {
                            let params = PhpScriptParams {
                                script_path: p.canonical.as_str(),
                                script_query: match h.target() {
                                    ReqTarget::Path(path) => path.query.as_str(),
                                    ReqTarget::All => {
                                        proof {
                                            reveal_strlit("");
                                            assert(""@ =~= Seq::<char>::empty());
                                        }
                                        ""
                                    },
                                },
                                used_credentials: match h.auth_creds() {
                                    Some(c) => Some((c.0.clone(), c.1.clone())),
                                    None => None,
                                },
                                client_ip: self.peer_addr.as_str(),
                                verb: h.verb(),
                                server_name: self.settings.host.as_str(),
                                server_port: self.settings.port,
                                version: h.version(),
                            };
                            proof {
                                assert(params@ == script_params(old(self)@, h@, p.canonical@));
                            }
                            php_environment(&params)
                        },
                        None => Err(
                            crate::res_builder::ResBuildingError::PhpError(String::new()),
                        ),
                    };
                    return match environment {
                        Ok(environment) => {
                            self.phase = Phase::Script;
                            self.path = p.canonical;
                            Task::RunScript { binary, environment }
                        },
                        Err(_) => self.answer_error(500, date),
                    };
                }
            },
            None => {},
        }
        let compress = match &self.head {
            Some(h) => compression_for(p.canonical.as_str(), h.accepted_encoding()),
            None => None,
        };
        self.phase = Phase::File;
        self.path = p.canonical.clone();
        self.compress = compress;
        Task::LoadFile { path: p.canonical, compress }
    }

    /// Takes the entries of the directory of the request.
    fn take_listing(&mut self, entries: Result<Vec<(String, bool)>, IoFailure>, date: &str) -> (t:
        Task)
        requires
            old(self)@.head is Some,
        ensures
            (final(self)@, t@) == advance(
                ConnectionView { phase: Phase::Listing, ..old(self)@ },
                EventView::Listed(
                    match entries {
                        Ok(e) => Ok(entries_view(e@)),
                        Err(f) => Err(f),
                    },
                ),
                date@,
            ),
    {
        let entries = match entries {
            Err(f) => {
                return self.answer_error(io_error_status(f), date);
            },
            Ok(e) => e,
        };
        let res = match &self.head {
            Some(h) => {
                let mut builder = ResBuilder::new(h.version());
                match h.target() {
                    ReqTarget::Path(path) => {
                        builder.list_directory(entries, path.decoded.as_str());
                    },
                    ReqTarget::All => {
                        proof {
                            reveal_strlit("");
                            assert(""@ =~= Seq::<char>::empty());
                        }
                        builder.list_directory(entries, "");
                    },
                }
                let _ = builder.do_build_at(String::from_str(date));
                builder.into_res()
            },
            None => HttpRes::new(""),
        };
        self.answer(res, date)
    }

    /// Takes the contents of the file of the request.
    fn take_file(&mut self, body: Result<ResBody, IoFailure>, date: &str) -> (t: Task)
        requires
            old(self)@.head is Some,
        ensures
            (final(self)@, t@) == advance(
                ConnectionView { phase: Phase::File, ..old(self)@ },
                EventView::Loaded(
                    match body {
                        Ok(b) => Ok(b@),
                        Err(f) => Err(f),
                    },
                ),
                date@,
            ),
    {
        let body = match body {
            Err(f) => {
                return self.answer_error(io_error_status(f), date);
            },
            Ok(b) => b,
        };
        let res = match &self.head {
            Some(h) => {
                let mut builder = ResBuilder::new(h.version());
                builder.set_file_body(self.path.as_str(), self.compress, body);
                let _ = builder.do_build_at(String::from_str(date));
                builder.into_res()
            },
            None => HttpRes::new(""),
        };
        self.answer(res, date)
    }

    /// Takes what the script of the request gave.
    fn take_script(&mut self, output: Result<PhpOutput, String>, date: &str) -> (t: Task)
        requires
            old(self)@.head is Some,
        ensures
            (final(self)@, t@) == advance(
                ConnectionView { phase: Phase::Script, ..old(self)@ },
                EventView::ScriptRan(
                    match output {
                        Ok(o) => Ok(o@),
                        Err(e) => Err(e@),
                    },
                ),
                date@,
            ),
    {
        let output = match output {
            Err(_) => {
                return self.answer_error(500, date);
            },
            Ok(o) => o,
        };
        let built = match &self.head {
            Some(h) => {
                let mut builder = ResBuilder::new(h.version());
                match builder.set_php_output(output) {
                    Ok(()) => {
                        let _ = builder.do_build_at(String::from_str(date));
                        Some(builder.into_res())
                    },
                    Err(_) => None,
                }
            },
            None => None,
        };
        match built {
            Some(res) => self.answer(res, date),
            None => self.answer_error(500, date),
        }
    }

    /// Takes an event and tells what is to be done next, with `date` as the
    /// date and time for the header `Date` of a response.
    pub fn next_at(&mut self, event: Event, date: &str) -> (t: Task)
        ensures
            (final(self)@, t@) == advance(old(self)@, event@, date@),
    {
        let known = self.head.is_some();
        match (self.phase, event) {
            (Phase::Head, Event::Line(bytes)) => self.take_line(bytes, date),
            (Phase::Floats, Event::Floats(readings)) => self.take_floats(readings, date),
            (Phase::Probe, Event::Probed(probe)) => {
                if known {
                    self.take_probe(probe, date)
                } else {
                    self.close()
                }
            },
            (Phase::Listing, Event::Listed(entries)) => {
                if known {
                    self.take_listing(entries, date)
                } else {
                    self.close()
                }
            },
            (Phase::File, Event::Loaded(body)) => {
                if known {
                    self.take_file(body, date)
                } else {
                    self.close()
                }
            },
            (Phase::Script, Event::ScriptRan(output)) => {
                if known {
                    self.take_script(output, date)
                } else {
                    self.close()
                }
            },
            _ => self.close(),
        }
    }

    /// Takes an event and tells what is to be done next. A response carries
    /// the date and time of now.
    pub fn next(&mut self, event: Event) -> (t: Task)
        ensures
            exists|date: Seq<char>|
                crate::res_builder::date_line(date) && (final(self)@, t@) == advance(
                    old(self)@,
                    event@,
                    date,
                ),
    {
        let date = crate::res_builder::http_date();
        self.next_at(event, date.as_str())
    }
}


/// A page that tells of an error has the status it tells of, and its
/// `Content-Type` is the media type of the server's own pages.
pub proof fn lemma_error_page(status_code: u16, date: Seq<char>)
    ensures
        error_page_response(status_code, date).status_code == status_code,
        headers_get(
            error_page_response(status_code, date).headers,
            HeaderNameView::Entity(EntityHeader::ContentType),
        ) == Some(HeaderValueView::Simple(SimpleValueView::Mime(html_type()))),
{
    let start = new_response(error_version());
    let challenged = if status_code == 401 {
        headers_with(
            start.headers,
            HeaderNameView::ResOnly(crate::http_header::ResOnlyHeader::WWWAuthenticate),
            HeaderValueView::Simple(SimpleValueView::Text(basic_challenge())),
        )
    } else {
        start.headers
    };
    lemma_headers_with(
        challenged,
        HeaderNameView::Entity(EntityHeader::ContentType),
        HeaderValueView::Simple(SimpleValueView::Mime(html_type())),
    );
    lemma_built_keeps(
        error_response(start, status_code, true),
        date,
        HeaderNameView::Entity(EntityHeader::ContentType),
    );
}

/// A file or a directory is read, and a script is run, only at a path that
/// was looked up and that lies under the document root.
pub proof fn lemma_served_under_root(c: ConnectionView, event: EventView, date: Seq<char>)
    ensures
        match advance(c, event, date).1 {
            TaskView::ListDirectory(path) => event matches EventView::Probed(Ok(p)) && p.canonical
                == path && path_under(path, c.settings.document_root),
            TaskView::LoadFile { path, .. } => event matches EventView::Probed(Ok(p))
                && p.canonical == path && path_under(path, c.settings.document_root),
            TaskView::RunScript { .. } => event matches EventView::Probed(Ok(p))
                && path_under(p.canonical, c.settings.document_root),
            _ => true,
        },
{
}

/// A path that does not lie under the document root is answered with the
/// status 403, where the sender accepts the page that tells of it.
pub proof fn lemma_traversal_forbidden(
    c: ConnectionView,
    h: ReqHeadView,
    probe: ProbeView,
    date: Seq<char>,
)
    requires
        c.phase == Phase::Probe,
        c.head == Some(h),
        !path_under(probe.canonical, c.settings.document_root),
        acceptable(
            headers_get(h.headers, HeaderNameView::ReqOnly(ReqOnlyHeader::Accept)),
            Some(HeaderValueView::Simple(SimpleValueView::Mime(html_type()))),
        ),
    ensures
        advance(c, EventView::Probed(Ok(probe)), date).1 matches TaskView::Respond { res, .. }
            && res.status_code == 403,
{
    lemma_error_page(403, date);
}

/// After a response the connection is closed exactly where the response is to
/// be followed by closing, and that is where the request asked for it. A
/// head that could not be read asks for nothing.
pub proof fn lemma_close_on_request(c: ConnectionView, event: EventView, date: Seq<char>)
    ensures
        match advance(c, event, date) {
            (after, TaskView::Respond { close, .. }) => (after.phase == Phase::Closed) == close
                && (!close ==> after.phase == Phase::Head) && match (c.phase, event) {
                (Phase::Head, _) => !close,
                (Phase::Floats, EventView::Floats(readings)) => match parsed_head(
                    c.parser.raw,
                    readings,
                ) {
                    Ok(h) => close == h.should_close(),
                    Err(_) => !close,
                },
                _ => c.head matches Some(h) && close == h.should_close(),
            },
            _ => true,
        },
{
}

/// Every response whose body is not empty carries in `Content-Length` the
/// number of bytes of its body.
pub proof fn lemma_response_length(c: ConnectionView, event: EventView, date: Seq<char>)
    ensures
        advance(c, event, date).1 matches TaskView::Respond { res, .. } ==> (res.body_len() > 0
            ==> headers_get(res.headers, HeaderNameView::Entity(EntityHeader::ContentLength))
            == Some(HeaderValueView::Simple(SimpleValueView::Number(res.body_len() as u64)))),
{
    match advance(c, event, date).1 {
        TaskView::Respond { res, .. } => {
            lemma_sent_is_built(c, event, date);
            let inner = choose|inner: HttpResView| res == built(inner, date);
            lemma_built_headers(inner, date);
        },
        _ => {},
    }
}

/// Every response carries the headers `Date` and `Server`.
pub proof fn lemma_response_dated(c: ConnectionView, event: EventView, date: Seq<char>)
    ensures
        advance(c, event, date).1 matches TaskView::Respond { res, .. }
            ==> crate::http_header::headers_has(
            res.headers,
            HeaderNameView::General(crate::http_header::GeneralHeader::Date),
        ) && crate::http_header::headers_has(
            res.headers,
            HeaderNameView::ResOnly(crate::http_header::ResOnlyHeader::Server),
        ),
{
    match advance(c, event, date).1 {
        TaskView::Respond { res, .. } => {
            lemma_sent_is_built(c, event, date);
            let inner = choose|inner: HttpResView| res == built(inner, date);
            lemma_built_headers(inner, date);
        },
        _ => {},
    }
}

/// Every response that is sent went through building.
pub proof fn lemma_sent_is_built(c: ConnectionView, event: EventView, date: Seq<char>)
    ensures
        advance(c, event, date).1 matches TaskView::Respond { res, .. } ==> exists|
            inner: HttpResView,
        | res == built(inner, date),
{
    let start = new_response(error_version());
    assert(unacceptable_response(date) == built(error_response(start, 415, false), date));
    assert forall|status: u16| #[trigger]
        error_page_response(status, date) == built(error_response(start, status, true), date) by {}
    match advance(c, event, date).1 {
        TaskView::Respond { res, .. } => {
            if res == unacceptable_response(date) {
            } else {
                match (c.phase, event, c.head) {
                    (Phase::Listing, EventView::Listed(Ok(entries)), Some(h)) => {
                        assert(res == built(
                            listing_response(new_response(h.version), entries, requested_path(h)),
                            date,
                        ));
                    },
                    (Phase::File, EventView::Loaded(Ok(body)), Some(h)) => {
                        assert(res == built(
                            file_response(new_response(h.version), c.path, c.compress, body),
                            date,
                        ));
                    },
                    (Phase::Script, EventView::ScriptRan(Ok(out)), Some(h)) => {
                        match php_response(new_response(h.version), out) {
                            Ok(r) => {
                                assert(res == built(r, date));
                            },
                            Err(_) => {
                                assert(res == error_page_response(500, date));
                            },
                        }
                    },
                    (Phase::Head, EventView::Line(bytes), _) => {
                        assert(res == error_page_response(400, date));
                    },
                    (Phase::Floats, EventView::Floats(readings), _) => {
                        assert(res == error_page_response(400, date) || res
                            == error_page_response(401, date) || res == error_page_response(
                            405,
                            date,
                        ));
                    },
                    (Phase::Probe, EventView::Probed(Ok(p)), Some(h)) => {
                        assert(res == error_page_response(403, date) || res
                            == error_page_response(500, date));
                    },
                    (Phase::Probe, EventView::Probed(Err(f)), Some(h)) => {
                        assert(res == error_page_response(failure_status(f), date));
                    },
                    (Phase::Listing, EventView::Listed(Err(f)), Some(h)) => {
                        assert(res == error_page_response(failure_status(f), date));
                    },
                    (Phase::File, EventView::Loaded(Err(f)), Some(h)) => {
                        assert(res == error_page_response(failure_status(f), date));
                    },
                    (Phase::Script, EventView::ScriptRan(Err(_)), Some(h)) => {
                        assert(res == error_page_response(500, date));
                    },
                    _ => {},
                }
            }
        },
        _ => {},
    }
}

/// Every response with the status 401 carries the challenge in
/// `WWW-Authenticate`.
pub proof fn lemma_unauthorized_response(c: ConnectionView, event: EventView, date: Seq<char>)
    ensures
        advance(c, event, date).1 matches TaskView::Respond { res, .. } ==> (res.status_code == 401
            ==> headers_get(
            res.headers,
            HeaderNameView::ResOnly(crate::http_header::ResOnlyHeader::WWWAuthenticate),
        ) == Some(HeaderValueView::Simple(SimpleValueView::Text(basic_challenge())))),
{
    let start = new_response(error_version());
    lemma_unauthorized_challenge(start, true, date);
    match advance(c, event, date).1 {
        TaskView::Respond { res, .. } => {
            if res.status_code == 401 {
                assert(res == error_page_response(401, date)) by {
                    assert(unacceptable_response(date).status_code == 415);
                    assert forall|status: u16| #[trigger]
                        error_page_response(status, date).status_code == status by {}
                    match (c.phase, event, c.head) {
                        (Phase::Listing, EventView::Listed(Ok(entries)), Some(h)) => {},
                        (Phase::File, EventView::Loaded(Ok(body)), Some(h)) => {},
                        (Phase::Script, EventView::ScriptRan(Ok(out)), Some(h)) => {},
                        _ => {},
                    }
                }
            }
        },
        _ => {},
    }
}

} // verus!
