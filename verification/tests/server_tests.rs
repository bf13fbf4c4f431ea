use rust_http_server::http_header::EntityHeader;
use rust_http_server::http_header::HeaderValue;
use rust_http_server::http_header::HeaderValueMembers;
use rust_http_server::http_header::Mime;
use rust_http_server::http_header::ParsedHeaderValue;
use rust_http_server::http_header::ResHeader;
use rust_http_server::http_header::ResOnlyHeader;
use rust_http_server::http_header::SimpleHeaderValue;
use rust_http_server::http_res::HttpRes;
use rust_http_server::http_res::ResBody;
use rust_http_server::req_parser::FloatReading;
use rust_http_server::req_parser::SupportedEncoding;
use rust_http_server::res_builder::PhpOutput;
use rust_http_server::server::io_error_status;
use rust_http_server::server::is_acceptable;
use rust_http_server::server::is_authorized;
use rust_http_server::server::names_script;
use rust_http_server::server::parse_authentication_credentials;
use rust_http_server::server::Connection;
use rust_http_server::server::Event;
use rust_http_server::server::IoFailure;
use rust_http_server::server::Phase;
use rust_http_server::server::Probe;
use rust_http_server::server::Settings;
use rust_http_server::server::Task;
use rust_http_server::server::MAX_LINE_LENGTH;

const ROOT: &str = "/srv/test-root";
const FIXED_DATE: &str = "Wed, 28 Oct 2026 20:12:00 GMT";

fn settings() -> Settings {
    Settings {
        host: String::from("0.0.0.0"),
        port: 8080,
        document_root: String::from(ROOT),
        allow_dir_listing: false,
        ssl_cert_path: None,
        ssl_key_path: None,
        authentication_credentials: None,
        php_cgi_binary: None,
    }
}

fn connection(settings: Settings) -> Connection {
    Connection::new(settings, String::from("192.0.2.7:51234"))
}

fn read_floats(texts: Vec<String>) -> Vec<FloatReading> {
    texts
        .into_iter()
        .map(|text| FloatReading { bits: text.parse::<f32>().ok().map(f32::to_bits), text })
        .collect()
}

/// Feeds a request line by line, as a reader that cuts after each line feed
/// would, and reads the qualities when asked to. Gives the first task that is
/// neither.
fn send(conn: &mut Connection, request: &[u8]) -> Task {
    let mut task = Task::ReadLine;
    for line in request.split_inclusive(|b| *b == b'\n') {
        match task {
            Task::ReadLine => {}
            other => return other,
        }
        task = conn.next_at(Event::Line(line.to_vec()), FIXED_DATE);
        if let Task::ReadFloats(texts) = task {
            task = conn.next_at(Event::Floats(read_floats(texts)), FIXED_DATE);
        }
    }
    task
}

fn response(task: Task) -> (HttpRes, bool) {
    match task {
        Task::Respond { res, close } => (res, close),
        _ => panic!("no response"),
    }
}

fn first_line(res: &HttpRes) -> String {
    let head = res.head_string();
    String::from(head.split_inclusive("\r\n").next().unwrap())
}

fn body_text(res: &HttpRes) -> String {
    match res.body_ref() {
        Some(ResBody::Bytes(bytes)) => String::from_utf8(bytes.clone()).unwrap(),
        _ => panic!("no body in memory"),
    }
}

fn found(path: &str, is_dir: bool) -> Event {
    Event::Probed(Ok(Probe { canonical: String::from(path), is_dir }))
}

fn probed_path(task: &Task) -> String {
    match task {
        Task::Probe(path) => path.clone(),
        _ => panic!("no probe"),
    }
}

#[test]
fn parse_authentication_credentials_test() {
    assert_eq!(parse_authentication_credentials(None), Ok(None));
    assert!(parse_authentication_credentials(Some(String::new())).is_err());
    assert!(parse_authentication_credentials(Some(String::from("username"))).is_err());
    assert!(parse_authentication_credentials(Some(String::from("username:"))).is_err());
    assert!(parse_authentication_credentials(Some(String::from(":password"))).is_err());
    assert_eq!(
        parse_authentication_credentials(Some(String::from("username:password"))),
        Ok(Some(vec![(String::from("username"), String::from("password"))]))
    );
    assert_eq!(
        parse_authentication_credentials(Some(String::from("foo:bar,bar:foo"))),
        Ok(Some(vec![
            (String::from("foo"), String::from("bar")),
            (String::from("bar"), String::from("foo"))
        ]))
    );
}

#[test]
fn credentials_argument_details_test() {
    assert_eq!(
        parse_authentication_credentials(Some(String::from("é:à:b, x:y"))),
        Ok(Some(vec![
            (String::from("é"), String::from("à:b")),
            (String::from(" x"), String::from("y"))
        ]))
    );
    assert_eq!(
        parse_authentication_credentials(Some(String::from("a:b,,c:d"))),
        Err(String::from("Invalid credential tuple: "))
    );
    assert_eq!(
        parse_authentication_credentials(Some(String::from("a:b,c:,e"))),
        Err(String::from("Invalid credential tuple: c:"))
    );
    assert_eq!(
        parse_authentication_credentials(Some(String::from("a:b,"))),
        Err(String::from("Invalid credential tuple: "))
    );
}

#[test]
fn is_authorized_test() {
    let open = settings();
    let pair = (String::from("user"), String::from("pass"));
    assert!(is_authorized(&open, None));
    assert!(is_authorized(&open, Some(&pair)));
    let closed = Settings {
        authentication_credentials: Some(vec![
            (String::from("admin"), String::from("root")),
            (String::from("user"), String::from("pass")),
        ]),
        ..settings()
    };
    assert!(!is_authorized(&closed, None));
    assert!(is_authorized(&closed, Some(&pair)));
    assert!(!is_authorized(&closed, Some(&(String::from("user"), String::from("root")))));
    assert!(!is_authorized(&closed, Some(&(String::from("User"), String::from("pass")))));
    let nobody = Settings { authentication_credentials: Some(Vec::new()), ..settings() };
    assert!(!is_authorized(&nobody, Some(&pair)));
}

#[test]
fn is_acceptable_test() {
    let mime = |kind: &str, subtype: &str| {
        HeaderValue::Simple(SimpleHeaderValue::Mime(Mime::new(kind, subtype)))
    };
    let list = |items: Vec<SimpleHeaderValue>| {
        HeaderValue::Parsed(ParsedHeaderValue(
            items.into_iter().map(|i| (i, HeaderValueMembers::new())).collect(),
        ))
    };
    let html = mime("text", "html");
    assert!(is_acceptable(None, Some(&html)));
    assert!(is_acceptable(Some(&html), None));
    assert!(is_acceptable(Some(&html), Some(&HeaderValue::text("text/plain"))));
    assert!(is_acceptable(Some(&HeaderValue::text("image/png")), Some(&html)));
    assert!(is_acceptable(Some(&html), Some(&html)));
    assert!(is_acceptable(Some(&mime("text", "*")), Some(&html)));
    assert!(is_acceptable(Some(&mime("*", "*")), Some(&html)));
    assert!(!is_acceptable(Some(&mime("application", "json")), Some(&html)));
    assert!(!is_acceptable(Some(&mime("*", "plain")), Some(&html)));
    assert!(!is_acceptable(Some(&list(vec![])), Some(&html)));
    assert!(!is_acceptable(
        Some(&list(vec![
            SimpleHeaderValue::Mime(Mime::new("image", "png")),
            SimpleHeaderValue::String(String::from("text/html")),
            SimpleHeaderValue::Number(1),
        ])),
        Some(&html)
    ));
    assert!(is_acceptable(
        Some(&list(vec![
            SimpleHeaderValue::Mime(Mime::new("image", "png")),
            SimpleHeaderValue::Mime(Mime::new("text", "*")),
        ])),
        Some(&html)
    ));
}

#[test]
fn small_decisions_test() {
    assert_eq!(MAX_LINE_LENGTH, 8000);
    assert_eq!(io_error_status(IoFailure::NotFound), 404);
    assert_eq!(io_error_status(IoFailure::PermissionDenied), 403);
    assert_eq!(io_error_status(IoFailure::Other), 500);
    assert!(names_script("/srv/index.php"));
    assert!(names_script(".php"));
    assert!(!names_script("php"));
    assert!(!names_script("/srv/index.PHP"));
    assert!(!names_script("/srv/index.php5"));
    assert!(!names_script("/srv/index.php/"));
    assert!(!names_script(""));
}

#[test]
fn malformed_verb_scenario_test() {
    let mut conn = connection(settings());
    let (res, close) =
        response(send(&mut conn, b"foo / HTTP/1.1\r\nHost: example.org\r\n\r\n"));
    assert_eq!(first_line(&res), "HTTP/1.1 400 Bad Request\r\n");
    assert!(!close);
    assert_eq!(conn.phase(), Phase::Head);
    assert!(body_text(&res).contains("<h1>400 Bad Request</h1>"));
}

#[test]
fn bad_heads_scenario_test() {
    let mut conn = connection(settings());
    for request in [
        &b"GET HTTP/1.1\r\nHost: example.org\r\n\r\n"[..],
        b"\r\n",
        b"GET /lipsum.html HTTP/1.1\r\nHost : example.org\r\n",
        b"GET /lipsum.html HTTP/1.1\r\nHost example.org\r\n",
        b"GET /lipsum.html HTTP/1.1\r\nAccept: \r\n\r\n",
        b"GET /lipsum.html HTTP/1.1\r\nAccept: foo\r\n\r\n",
        b"GET /lipsum.html HTTP/1.1\r\nX: \xc3\xa9\r\n",
        b"GET /%ff HTTP/1.1\r\n\r\n",
    ] {
        let (res, close) = response(send(&mut conn, request));
        assert_eq!(first_line(&res), "HTTP/1.1 400 Bad Request\r\n");
        assert!(!close);
        assert_eq!(conn.phase(), Phase::Head);
    }
    let (res, _) = response(send(&mut conn, b"GET * HTTP/1.1\r\n\r\n"));
    assert_eq!(first_line(&res), "HTTP/1.1 400 Bad Request\r\n");
}

#[test]
fn path_traversal_scenario_test() {
    let mut conn = connection(settings());
    let task = send(&mut conn, b"GET /../README.md HTTP/1.1\r\nHost: x\r\n\r\n");
    assert_eq!(probed_path(&task), "/srv/test-root/../README.md");
    assert_eq!(conn.phase(), Phase::Probe);
    let (res, close) = response(conn.next_at(found("/srv/README.md", false), FIXED_DATE));
    assert_eq!(first_line(&res), "HTTP/1.1 403 Forbidden\r\n");
    assert!(!close);

    for outside in ["/srv", "/", "/srv/test-root2/x", "/srv/test-roo", "srv/test-root/x"] {
        let task = send(&mut conn, b"GET /../ HTTP/1.1\r\nHost: x\r\n\r\n");
        assert_eq!(probed_path(&task), "/srv/test-root/../");
        let is_dir = outside.len() < 10;
        let (res, _) = response(conn.next_at(found(outside, is_dir), FIXED_DATE));
        assert_eq!(first_line(&res), "HTTP/1.1 403 Forbidden\r\n");
    }
    let task = send(&mut conn, b"GET /x HTTP/1.1\r\nAccept: application/json\r\n\r\n");
    assert_eq!(probed_path(&task), "/srv/test-root/x");
    let (res, _) = response(conn.next_at(found("/etc/passwd", false), FIXED_DATE));
    assert_eq!(first_line(&res), "HTTP/1.1 415 Unsupported Media Type\r\n");
}

#[test]
fn nonexistent_file_scenario_test() {
    let mut conn = connection(settings());
    let task = send(&mut conn, b"GET /non-existent HTTP/1.1\r\nHost: x\r\n\r\n");
    assert_eq!(probed_path(&task), "/srv/test-root/non-existent");
    let (res, close) = response(conn.next_at(Event::Probed(Err(IoFailure::NotFound)), FIXED_DATE));
    assert_eq!(first_line(&res), "HTTP/1.1 404 Not Found\r\n");
    assert!(!close);

    let task = send(&mut conn, b"GET non-root-path HTTP/1.1\r\nHost: example.com\r\n\r\n");
    assert_eq!(probed_path(&task), "/srv/test-rootnon-root-path");
    let (res, _) = response(conn.next_at(Event::Probed(Err(IoFailure::NotFound)), FIXED_DATE));
    assert_eq!(first_line(&res), "HTTP/1.1 404 Not Found\r\n");

    send(&mut conn, b"GET /secret HTTP/1.1\r\n\r\n");
    let (res, _) =
        response(conn.next_at(Event::Probed(Err(IoFailure::PermissionDenied)), FIXED_DATE));
    assert_eq!(first_line(&res), "HTTP/1.1 403 Forbidden\r\n");
    send(&mut conn, b"GET /broken HTTP/1.1\r\n\r\n");
    let (res, _) = response(conn.next_at(Event::Probed(Err(IoFailure::Other)), FIXED_DATE));
    assert_eq!(first_line(&res), "HTTP/1.1 500 Internal Server Error\r\n");
}

fn load(conn: &mut Connection, request: &[u8], path: &str) -> Task {
    let task = send(conn, request);
    assert_eq!(conn.phase(), Phase::Probe);
    assert!(matches!(task, Task::Probe(_)));
    conn.next_at(found(path, false), FIXED_DATE)
}

#[test]
fn header_folding_scenario_test() {
    let mut conn = connection(settings());
    let task = load(
        &mut conn,
        b"GET /lipsum.html HTTP/1.1\r\nHost: example\r\n.org\r\n\r\n",
        "/srv/test-root/lipsum.html",
    );
    match task {
        Task::LoadFile { path, compress } => {
            assert_eq!(path, "/srv/test-root/lipsum.html");
            assert_eq!(compress, None);
        }
        _ => panic!("no file"),
    }
    assert_eq!(conn.phase(), Phase::File);
    let contents = b"<p>Lorem ipsum</p>\n".to_vec();
    let task = conn.next_at(Event::Loaded(Ok(ResBody::Bytes(contents.clone()))), FIXED_DATE);
    let (res, close) = response(task);
    assert_eq!(first_line(&res), "HTTP/1.1 200 OK\r\n");
    assert!(!close);
    assert_eq!(conn.phase(), Phase::Head);
    assert_eq!(
        res.head_string(),
        format!(
            "HTTP/1.1 200 OK\r\nContent-Type: text/html\r\nDate: {}\r\n\
             Server: rust-http-server\r\nContent-Length: 19\r\n\r\n",
            FIXED_DATE
        )
    );
    assert_eq!(body_text(&res).into_bytes(), contents);
}

#[test]
fn unacceptable_media_scenario_test() {
    let mut conn = connection(settings());
    let task = load(
        &mut conn,
        b"GET /lipsum.html HTTP/1.1\r\nAccept: application/json\r\n\r\n",
        "/srv/test-root/lipsum.html",
    );
    assert!(matches!(task, Task::LoadFile { .. }));
    let task = conn.next_at(Event::Loaded(Ok(ResBody::Bytes(b"<p></p>".to_vec()))), FIXED_DATE);
    let (res, close) = response(task);
    assert_eq!(first_line(&res), "HTTP/1.1 415 Unsupported Media Type\r\n");
    assert!(res.head_string().contains("\r\nContent-Length: 0\r\n"));
    assert!(res.body_ref().is_none());
    assert!(!close);
    assert_eq!(conn.phase(), Phase::Head);

    let task = load(
        &mut conn,
        b"GET /lipsum.html HTTP/1.1\r\nAccept: application/json, text/*;q=0.1\r\n\r\n",
        "/srv/test-root/lipsum.html",
    );
    assert!(matches!(task, Task::LoadFile { .. }));
    let task = conn.next_at(Event::Loaded(Ok(ResBody::Bytes(b"<p></p>".to_vec()))), FIXED_DATE);
    let (res, _) = response(task);
    assert_eq!(first_line(&res), "HTTP/1.1 200 OK\r\n");
}

#[test]
fn connection_close_scenario_test() {
    let mut conn = connection(settings());
    let task = load(
        &mut conn,
        b"GET /lipsum.html HTTP/1.1\r\nConnection: close\r\n\r\n",
        "/srv/test-root/lipsum.html",
    );
    assert!(matches!(task, Task::LoadFile { .. }));
    let task = conn.next_at(Event::Loaded(Ok(ResBody::Bytes(b"<p></p>".to_vec()))), FIXED_DATE);
    let (res, close) = response(task);
    assert_eq!(first_line(&res), "HTTP/1.1 200 OK\r\n");
    assert!(close);
    assert_eq!(conn.phase(), Phase::Closed);
    assert!(matches!(conn.next(Event::Line(b"GET / HTTP/1.1\r\n".to_vec())), Task::Close));
    assert_eq!(conn.phase(), Phase::Closed);

    let mut conn = connection(settings());
    let task = load(
        &mut conn,
        b"GET /lipsum.html HTTP/1.1\r\nConnection: keep-alive\r\n\r\n",
        "/srv/test-root/lipsum.html",
    );
    assert!(matches!(task, Task::LoadFile { .. }));
    let (_, close) = response(conn.next(Event::Loaded(Err(IoFailure::NotFound))));
    assert!(!close);
    assert!(matches!(conn.next(Event::Line(b"GET / HTTP/1.1\r\n".to_vec())), Task::ReadLine));
    assert!(matches!(conn.next(Event::Line(Vec::new())), Task::Close));
    assert_eq!(conn.phase(), Phase::Closed);

    let mut conn = connection(settings());
    let (res, close) = response(send(&mut conn, b"PUT /x HTTP/1.1\r\nConnection: close\r\n\r\n"));
    assert_eq!(first_line(&res), "HTTP/1.1 405 Method Not Allowed\r\n");
    assert!(close);
    let mut conn = connection(settings());
    assert!(matches!(conn.next(Event::ReadFailed), Task::Close));
    let mut conn = connection(settings());
    assert!(matches!(conn.next(Event::Floats(Vec::new())), Task::Close));
    assert_eq!(conn.phase(), Phase::Closed);
}

#[test]
fn directory_listing_scenario_test() {
    let mut conn = connection(Settings { allow_dir_listing: true, ..settings() });
    let task = send(&mut conn, b"GET / HTTP/1.1\r\nHost: x\r\n\r\n");
    assert_eq!(probed_path(&task), "/srv/test-root/");
    let task = conn.next_at(found("/srv/test-root", true), FIXED_DATE);
    match task {
        Task::ListDirectory(path) => assert_eq!(path, "/srv/test-root"),
        _ => panic!("no listing"),
    }
    assert_eq!(conn.phase(), Phase::Listing);
    let entries = vec![
        (String::from("lipsum.html"), false),
        (String::from("subdir"), true),
        (String::from("fichier à caractères spéciaux français.txt"), false),
    ];
    let (res, close) = response(conn.next_at(Event::Listed(Ok(entries)), FIXED_DATE));
    assert!(!close);
    assert_eq!(first_line(&res), "HTTP/1.1 200 OK\r\n");
    let body = body_text(&res);
    assert_eq!(
        body,
        "<!DOCTYPE HTML> <html lang=\"en\"> <head> <meta charset=\"utf-8\"/> <title>Index of /</title> </head> <body> <h1>Index of /</h1> <hr/> <ul><li><pre><a href=\"subdir\">subdir/</a></pre></li><li><pre><a href=\"fichier à caractères spéciaux français.txt\">fichier à caractères spéciaux français.txt</a></pre></li><li><pre><a href=\"lipsum.html\">lipsum.html</a></pre></li></ul> <hr/> </body> </html> \r\n"
    );
    let subdir = body.find("subdir/").unwrap();
    let fichier = body.find("fichier").unwrap();
    let lipsum = body.find("lipsum.html").unwrap();
    assert!(subdir < fichier && fichier < lipsum);
    assert_eq!(
        res.headers_ref().get(&ResHeader::Entity(EntityHeader::ContentLength)),
        Some(&HeaderValue::Simple(SimpleHeaderValue::Number(body.len() as u64)))
    );

    let task = send(&mut conn, b"GET /subdir/ HTTP/1.1\r\nHost: x\r\n\r\n");
    assert_eq!(probed_path(&task), "/srv/test-root/subdir/");
    assert!(matches!(
        conn.next_at(found("/srv/test-root/subdir", true), FIXED_DATE),
        Task::ListDirectory(_)
    ));
    let entries = vec![(String::from("lipsum-alt.txt"), false)];
    let (res, _) = response(conn.next_at(Event::Listed(Ok(entries)), FIXED_DATE));
    assert_eq!(
        body_text(&res),
        "<!DOCTYPE HTML> <html lang=\"en\"> <head> <meta charset=\"utf-8\"/> <title>Index of /subdir/</title> </head> <body> <h1>Index of /subdir/</h1> <hr/> <ul><li><pre><a href=\"/subdir/..\">../</a></pre></li><li><pre><a href=\"/subdir/lipsum-alt.txt\">lipsum-alt.txt</a></pre></li></ul> <hr/> </body> </html> \r\n"
    );

    send(&mut conn, b"GET /subdir HTTP/1.1\r\n\r\n");
    assert!(matches!(
        conn.next_at(found("/srv/test-root/subdir", true), FIXED_DATE),
        Task::ListDirectory(_)
    ));
    let failed = Event::Listed(Err(IoFailure::PermissionDenied));
    let (res, _) = response(conn.next_at(failed, FIXED_DATE));
    assert_eq!(first_line(&res), "HTTP/1.1 403 Forbidden\r\n");
}

#[test]
fn directory_listing_disabled_scenario_test() {
    let mut conn = connection(settings());
    for (request, dir) in [
        (&b"GET / HTTP/1.1\r\n\r\n"[..], "/srv/test-root"),
        (b"GET /subdir HTTP/1.1\r\n\r\n", "/srv/test-root/subdir"),
        (b"GET /subdir/ HTTP/1.1\r\n\r\n", "/srv/test-root/subdir"),
    ] {
        send(&mut conn, request);
        let (res, _) = response(conn.next_at(found(dir, true), FIXED_DATE));
        assert_eq!(first_line(&res), "HTTP/1.1 403 Forbidden\r\n");
    }
}

#[test]
fn authentication_scenario_test() {
    let guarded = Settings {
        authentication_credentials: Some(vec![(String::from("user"), String::from("pass"))]),
        ..settings()
    };
    let mut conn = connection(guarded);
    let (res, close) = response(send(&mut conn, b"GET /lipsum.html HTTP/1.1\r\n\r\n"));
    assert_eq!(first_line(&res), "HTTP/1.1 401 Unauthorized\r\n");
    assert!(!close);
    assert_eq!(
        res.headers_ref().get(&ResHeader::ResOnly(ResOnlyHeader::WWWAuthenticate)),
        Some(&HeaderValue::text("Basic realm=\"simple\""))
    );
    assert!(res.head_string().contains("\r\nWWW-Authenticate: Basic realm=\"simple\"\r\n"));
    let request = b"PUT * HTTP/1.1\r\nAuthorization: Basic dXNlcjpyb290\r\n\r\n";
    let (res, _) = response(send(&mut conn, request));
    assert_eq!(first_line(&res), "HTTP/1.1 401 Unauthorized\r\n");
    let request = b"GET /lipsum.html HTTP/1.1\r\nAuthorization: Basic dXNlcjpwYXNz\r\n\r\n";
    assert!(matches!(send(&mut conn, request), Task::Probe(_)));
}

#[test]
fn compression_scenario_test() {
    let mut conn = connection(settings());
    let task = load(
        &mut conn,
        b"GET /lipsum.html HTTP/1.1\r\nAccept-Encoding: identity, br;q=0.5, gzip\r\n\r\n",
        "/srv/test-root/lipsum.html",
    );
    match task {
        Task::LoadFile { path, compress } => {
            assert_eq!(path, "/srv/test-root/lipsum.html");
            assert_eq!(compress, Some(SupportedEncoding::Br));
        }
        _ => panic!("no file"),
    }
    let task = conn.next_at(Event::Loaded(Ok(ResBody::Bytes(vec![1, 2, 3, 4, 5]))), FIXED_DATE);
    let (res, _) = response(task);
    assert_eq!(
        res.head_string(),
        format!(
            "HTTP/1.1 200 OK\r\nContent-Type: text/html\r\nContent-Encoding: br\r\nDate: {}\r\n\
             Server: rust-http-server\r\nContent-Length: 5\r\n\r\n",
            FIXED_DATE
        )
    );
    let task = load(
        &mut conn,
        b"GET /picture.png HTTP/1.1\r\nAccept-Encoding: gzip\r\n\r\n",
        "/srv/test-root/picture.png",
    );
    match task {
        Task::LoadFile { compress, .. } => assert_eq!(compress, None),
        _ => panic!("no file"),
    }
}

#[test]
fn script_scenario_test() {
    let with_php = Settings { php_cgi_binary: Some(String::from("php-cgi")), ..settings() };
    let mut conn = connection(with_php);
    let request = b"GET /dir/index.php?a=1#top HTTP/1.1\r\nAuthorization: Basic dXNlcjpwYXNz\r\n\r\n";
    let task = send(&mut conn, request);
    assert_eq!(probed_path(&task), "/srv/test-root/dir/index.php");
    let task = conn.next_at(found("/srv/test-root/dir/index.php", false), FIXED_DATE);
    let environment = match task {
        Task::RunScript { binary, environment } => {
            assert_eq!(binary, "php-cgi");
            environment
        }
        _ => panic!("no script"),
    };
    assert_eq!(conn.phase(), Phase::Script);
    assert_eq!(environment.len(), 20);
    let var = |name: &str| {
        environment.iter().find(|(n, _)| n == name).map(|(_, v)| v.clone()).unwrap()
    };
    assert_eq!(var("AUTH_TYPE"), "Basic");
    assert_eq!(var("QUERY_STRING"), "a=1");
    assert_eq!(var("REMOTE_ADDR"), "192.0.2.7:51234");
    assert_eq!(var("REMOTE_USER"), "user");
    assert_eq!(var("REQUEST_METHOD"), "GET");
    assert_eq!(var("SCRIPT_PATH"), "index.php");
    assert_eq!(var("SCRIPT_FILENAME"), "/srv/test-root/dir/index.php");
    assert_eq!(var("SERVER_NAME"), "0.0.0.0");
    assert_eq!(var("SERVER_PORT"), "8080");
    assert_eq!(var("SERVER_PROTOCOL"), "HTTP/1.1");
    let output = PhpOutput {
        success: true,
        status: String::from("exit status: 0"),
        stdout: b"Content-type: text/html; charset=UTF-8\r\n\r\n<p>hello</p>".to_vec(),
        stderr: Vec::new(),
    };
    let (res, close) = response(conn.next_at(Event::ScriptRan(Ok(output)), FIXED_DATE));
    assert!(!close);
    assert_eq!(
        res.head_string(),
        format!(
            "HTTP/1.1 200 OK\r\nDate: {}\r\nServer: rust-http-server\r\nContent-Length: 12\r\n\
             Content-type: text/html; charset=UTF-8\r\n\r\n",
            FIXED_DATE
        )
    );
    assert_eq!(body_text(&res), "<p>hello</p>");

    for event in [
        Event::ScriptRan(Err(String::from("No such file or directory"))),
        Event::ScriptRan(Ok(PhpOutput {
            success: false,
            status: String::from("exit status: 255"),
            stdout: b"X: 1\r\n\r\n".to_vec(),
            stderr: b"it broke".to_vec(),
        })),
        Event::ScriptRan(Ok(PhpOutput {
            success: true,
            status: String::from("exit status: 0"),
            stdout: b"no empty line".to_vec(),
            stderr: Vec::new(),
        })),
    ] {
        send(&mut conn, b"GET /index.php HTTP/1.1\r\n\r\n");
        let task = conn.next_at(found("/srv/test-root/index.php", false), FIXED_DATE);
        assert!(matches!(task, Task::RunScript { .. }));
        let (res, _) = response(conn.next_at(event, FIXED_DATE));
        assert_eq!(first_line(&res), "HTTP/1.1 500 Internal Server Error\r\n");
    }

    let mut conn = connection(settings());
    send(&mut conn, b"GET /index.php HTTP/1.1\r\n\r\n");
    let task = conn.next_at(found("/srv/test-root/index.php", false), FIXED_DATE);
    assert!(matches!(task, Task::LoadFile { .. }));
}

#[test]
fn events_out_of_turn_close_the_connection_test() {
    let mut conn = connection(settings());
    send(&mut conn, b"GET /x HTTP/1.1\r\n\r\n");
    assert_eq!(conn.phase(), Phase::Probe);
    assert!(matches!(conn.next(Event::Loaded(Ok(ResBody::Bytes(Vec::new())))), Task::Close));
    assert_eq!(conn.phase(), Phase::Closed);
    assert!(matches!(conn.next(found("/srv/test-root/x", false)), Task::Close));
}
