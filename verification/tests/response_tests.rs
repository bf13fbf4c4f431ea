use rust_http_server::http_header::EntityHeader;
use rust_http_server::http_header::GeneralHeader;
use rust_http_server::http_header::HeaderMap;
use rust_http_server::http_header::HeaderValue;
use rust_http_server::http_header::Mime;
use rust_http_server::http_header::ResHeader;
use rust_http_server::http_header::ResOnlyHeader;
use rust_http_server::http_header::SimpleHeaderValue;
use rust_http_server::http_req::ReqVerb;
use rust_http_server::http_res::get_reason_phrase;
use rust_http_server::http_res::HttpRes;
use rust_http_server::http_res::ResBody;
use rust_http_server::req_parser::SupportedEncoding;
use rust_http_server::res_builder::compression_for;
use rust_http_server::res_builder::compression_for_mime;
use rust_http_server::res_builder::find_blank_line;
use rust_http_server::res_builder::http_date;
use rust_http_server::res_builder::php_environment;
use rust_http_server::res_builder::should_stream;
use rust_http_server::res_builder::sort_entries;
use rust_http_server::res_builder::without_end_slashes;
use rust_http_server::res_builder::PhpOutput;
use rust_http_server::res_builder::PhpScriptParams;
use rust_http_server::res_builder::ResBuilder;
use rust_http_server::res_builder::ResBuildingError;
use rust_http_server::res_builder::STREAM_THRESHOLD;

const FIXED_DATE: &str = "Wed, 28 Oct 2026 20:12:00 GMT";

fn body_text(res: &HttpRes) -> String {
    match res.body_ref() {
        Some(ResBody::Bytes(bytes)) => String::from_utf8(bytes.clone()).unwrap(),
        _ => panic!("no body in memory"),
    }
}

fn entry(name: &str, is_dir: bool) -> (String, bool) {
    (String::from(name), is_dir)
}

#[test]
fn http_res_test() {
    let mut res = HttpRes::new("HTTP/1.1");
    res.set_status(200);
    res.set_header(
        ResHeader::General(GeneralHeader::Connection),
        HeaderValue::Simple(SimpleHeaderValue::String(String::from("keep-alive"))),
    );
    res.set_header(
        ResHeader::ResOnly(ResOnlyHeader::Server),
        HeaderValue::Simple(SimpleHeaderValue::String(String::from("rust-http-server"))),
    );

    assert_eq!(res.status_code(), 200);
    assert!(res.has_header(ResHeader::General(GeneralHeader::Connection)));
    assert!(res.has_header(ResHeader::ResOnly(ResOnlyHeader::Server)));
    assert_eq!(
        res.headers_ref(),
        &HeaderMap::from_entries(vec![
            (
                ResHeader::General(GeneralHeader::Connection),
                HeaderValue::Simple(SimpleHeaderValue::String(String::from("keep-alive")))
            ),
            (
                ResHeader::ResOnly(ResOnlyHeader::Server),
                HeaderValue::Simple(SimpleHeaderValue::String(String::from(
                    "rust-http-server"
                ))),
            )
        ])
    );

    let bytes = res.head_bytes();
    assert!(bytes.starts_with(b"HTTP/1.1 200 OK\r\n"));
    assert!(b"Connection: keep-alive\r\n".iter().all(|b| bytes.contains(b)));
    assert!(b"Server: rust-http-server\r\n".iter().all(|b| bytes.contains(b)));
    assert_eq!(
        bytes,
        b"HTTP/1.1 200 OK\r\nConnection: keep-alive\r\nServer: rust-http-server\r\n\r\n".to_vec()
    );
}

#[test]
fn http_res_body_test() {
    let mut res = HttpRes::new("HTTP/1.1");
    assert_eq!(res.body_len(), 0);
    assert!(res.body_ref().is_none());
    assert!(res.body_mut().is_none());

    res.set_body(Some(ResBody::Bytes(vec![0, 1, 2, 3, 4])));
    assert_eq!(res.body_len(), 5);
    assert!(res.body_ref().is_some());
    assert!(res.body_mut().is_some());
    assert_eq!(res.body_ref().unwrap().len(), 5);
    assert_eq!(res.body_mut().unwrap().len(), 5);
    assert!(!res.body_ref().unwrap().is_empty());
    assert!(!res.body_mut().unwrap().is_empty());

    res.set_body(Some(ResBody::Bytes(Vec::new())));
    assert_eq!(res.body_len(), 0);
    assert!(res.body_ref().unwrap().is_empty());
    res.set_body(None);
    assert!(res.body_ref().is_none());
}

#[test]
fn response_head_on_the_wire_test() {
    let mut res = HttpRes::new("HTTP/1.0");
    res.set_status(404);
    assert_eq!(res.head_string(), "HTTP/1.0 404 Not Found\r\n\r\n");
    res.set_status(299);
    assert_eq!(res.head_string(), "HTTP/1.0 299 Unknown Error\r\n\r\n");
    res.set_status(0);
    res.set_header(ResHeader::Other(String::from("X-Caf\u{e9}")), HeaderValue::text("\u{e0}"));
    res.headers().insert(
        ResHeader::Entity(EntityHeader::ContentLength),
        HeaderValue::Simple(SimpleHeaderValue::Number(12)),
    );
    res.set_raw_headers(String::from("X-Powered-By: PHP\r\nStatus: 201\r\n"));
    let head = "HTTP/1.0 0 Unknown Error\r\nX-Caf\u{e9}: \u{e0}\r\nContent-Length: 12\r\n\
                X-Powered-By: PHP\r\nStatus: 201\r\n\r\n";
    assert_eq!(res.head_string(), head);
    assert_eq!(res.head_bytes(), head.as_bytes().to_vec());
    assert_eq!(res.version(), "HTTP/1.0");
    assert_eq!(res.status_code(), 0);
}

#[test]
fn reason_phrase_test() {
    assert_eq!(get_reason_phrase(100), "Continue");
    assert_eq!(get_reason_phrase(200), "OK");
    assert_eq!(get_reason_phrase(203), "Non-Authoritative Information");
    assert_eq!(get_reason_phrase(307), "Temporary Redirect");
    assert_eq!(get_reason_phrase(400), "Bad Request");
    assert_eq!(get_reason_phrase(401), "Unauthorized");
    assert_eq!(get_reason_phrase(403), "Forbidden");
    assert_eq!(get_reason_phrase(404), "Not Found");
    assert_eq!(get_reason_phrase(405), "Method Not Allowed");
    assert_eq!(get_reason_phrase(415), "Unsupported Media Type");
    assert_eq!(get_reason_phrase(426), "Upgrade Required");
    assert_eq!(get_reason_phrase(500), "Internal Server Error");
    assert_eq!(get_reason_phrase(505), "HTTP Version Not Supported");
    for unknown in [0, 99, 102, 306, 418, 506, 65535] {
        assert_eq!(get_reason_phrase(unknown), "Unknown Error");
    }
}

#[test]
fn build_error_with_body_test() {
    let mut builder = ResBuilder::new("HTTP/1.1");
    let res = builder.build_error_at(404, true, String::from(FIXED_DATE));
    assert_eq!(res.status_code(), 404);
    let page = "<!DOCTYPE html> <html lang=\"en\"> <head> <meta charset=\"utf-8\"/> \
                <title>404 Not Found</title> </head> <body> <h1>404 Not Found</h1> </body> \
                </html> \r\n";
    assert_eq!(body_text(res), page);
    assert_eq!(
        res.head_string(),
        format!(
            "HTTP/1.1 404 Not Found\r\nContent-Type: text/html; charset=utf-8\r\nDate: {}\r\n\
             Server: rust-http-server\r\nContent-Length: {}\r\n\r\n",
            FIXED_DATE,
            page.len()
        )
    );
    assert!(!res.has_header(ResHeader::ResOnly(ResOnlyHeader::WWWAuthenticate)));
    assert_eq!(
        res.headers_ref().get(&ResHeader::Entity(EntityHeader::ContentType)),
        Some(&HeaderValue::Simple(SimpleHeaderValue::Mime(
            Mime::new("text", "html").with_param("charset", "utf-8")
        )))
    );
    assert!(res.head_bytes().starts_with(b"HTTP/1.1 404 Not Found\r\n"));
}

#[test]
fn build_error_without_body_test() {
    let mut builder = ResBuilder::new("HTTP/1.1");
    let res = builder.build_error_at(415, false, String::from(FIXED_DATE));
    assert_eq!(res.status_code(), 415);
    assert!(res.body_ref().is_none());
    assert_eq!(
        res.headers_ref().get(&ResHeader::Entity(EntityHeader::ContentLength)),
        Some(&HeaderValue::text("0"))
    );
    assert!(!res.has_header(ResHeader::Entity(EntityHeader::ContentType)));
    assert_eq!(
        res.head_string(),
        format!(
            "HTTP/1.1 415 Unsupported Media Type\r\nContent-Length: 0\r\nDate: {}\r\n\
             Server: rust-http-server\r\n\r\n",
            FIXED_DATE
        )
    );
}

#[test]
fn unauthorized_carries_the_challenge_test() {
    for with_body in [true, false] {
        let mut builder = ResBuilder::new("HTTP/1.1");
        let res = builder.build_error(401, with_body);
        assert_eq!(res.status_code(), 401);
        assert_eq!(
            res.headers_ref().get(&ResHeader::ResOnly(ResOnlyHeader::WWWAuthenticate)),
            Some(&HeaderValue::text("Basic realm=\"simple\""))
        );
        assert!(res.head_string().contains("WWW-Authenticate: Basic realm=\"simple\"\r\n"));
        assert!(res.head_string().starts_with("HTTP/1.1 401 Unauthorized\r\n"));
    }
    let mut builder = ResBuilder::new("HTTP/1.1");
    let res = builder.build_error(403, true);
    assert!(!res.has_header(ResHeader::ResOnly(ResOnlyHeader::WWWAuthenticate)));
}

#[test]
fn do_build_sets_what_is_missing_test() {
    let mut builder = ResBuilder::new("HTTP/1.1");
    let res = builder.do_build();
    let date = match res.headers_ref().get(&ResHeader::General(GeneralHeader::Date)) {
        Some(HeaderValue::Simple(SimpleHeaderValue::String(date))) => date.clone(),
        other => panic!("no date: {:?}", other),
    };
    assert_eq!(date.len(), 29);
    assert!(date.ends_with(" GMT"));
    assert_eq!(&date[3..5], ", ");
    assert_eq!(
        res.headers_ref().get(&ResHeader::ResOnly(ResOnlyHeader::Server)),
        Some(&HeaderValue::text("rust-http-server"))
    );
    assert!(!res.has_header(ResHeader::Entity(EntityHeader::ContentLength)));
    assert_eq!(http_date().len(), 29);

    let mut builder = ResBuilder::new("HTTP/1.1");
    {
        let res = builder.do_build_at(String::from(FIXED_DATE));
        res.set_header(ResHeader::ResOnly(ResOnlyHeader::Server), HeaderValue::text("mine"));
        res.set_body(Some(ResBody::Bytes(vec![7; 300])));
        res.set_header(
            ResHeader::Entity(EntityHeader::ContentLength),
            HeaderValue::Simple(SimpleHeaderValue::Number(1)),
        );
    }
    let res = builder.do_build_at(String::from("later"));
    assert_eq!(
        res.headers_ref().get(&ResHeader::General(GeneralHeader::Date)),
        Some(&HeaderValue::text(FIXED_DATE))
    );
    assert_eq!(
        res.headers_ref().get(&ResHeader::ResOnly(ResOnlyHeader::Server)),
        Some(&HeaderValue::text("mine"))
    );
    assert_eq!(
        res.headers_ref().get(&ResHeader::Entity(EntityHeader::ContentLength)),
        Some(&HeaderValue::Simple(SimpleHeaderValue::Number(300)))
    );
    assert_eq!(res.body_len(), 300);
}

#[test]
fn list_directory_at_the_root_test() {
    let mut builder = ResBuilder::new("HTTP/1.1");
    builder.list_directory(
        vec![
            entry("lipsum.html", false),
            entry("fichier à caractères spéciaux français.txt", false),
            entry("subdir", true),
        ],
        "/",
    );
    assert_eq!(
        body_text(builder.res()),
        "<!DOCTYPE HTML> <html lang=\"en\"> <head> <meta charset=\"utf-8\"/> <title>Index of /</title> </head> <body> <h1>Index of /</h1> <hr/> <ul><li><pre><a href=\"subdir\">subdir/</a></pre></li><li><pre><a href=\"fichier à caractères spéciaux français.txt\">fichier à caractères spéciaux français.txt</a></pre></li><li><pre><a href=\"lipsum.html\">lipsum.html</a></pre></li></ul> <hr/> </body> </html> \r\n"
    );
    assert_eq!(
        builder.res().headers_ref().get(&ResHeader::Entity(EntityHeader::ContentType)),
        Some(&HeaderValue::Simple(SimpleHeaderValue::Mime(
            Mime::new("text", "html").with_param("charset", "utf-8")
        )))
    );
    let len = builder.res().body_len() as u64;
    let res = builder.do_build();
    assert_eq!(
        res.headers_ref().get(&ResHeader::Entity(EntityHeader::ContentLength)),
        Some(&HeaderValue::Simple(SimpleHeaderValue::Number(len)))
    );
}

#[test]
fn list_directory_below_the_root_test() {
    for rel in ["/subdir", "/subdir/", "/subdir///"] {
        let mut builder = ResBuilder::new("HTTP/1.1");
        builder.list_directory(vec![entry("lipsum-alt.txt", false)], rel);
        assert_eq!(
            body_text(builder.res()),
            format!(
                "<!DOCTYPE HTML> <html lang=\"en\"> <head> <meta charset=\"utf-8\"/> <title>Index of {rel}</title> </head> <body> <h1>Index of {rel}</h1> <hr/> <ul><li><pre><a href=\"/subdir/..\">../</a></pre></li><li><pre><a href=\"/subdir/lipsum-alt.txt\">lipsum-alt.txt</a></pre></li></ul> <hr/> </body> </html> \r\n"
            )
        );
    }
    let mut builder = ResBuilder::new("HTTP/1.1");
    builder.list_directory(vec![entry("-", true), entry("!", false)], "//");
    assert!(body_text(builder.res()).contains(
        "<ul><li><pre><a href=\"/..\">../</a></pre></li><li><pre><a href=\"/-\">-/</a></pre></li>\
         <li><pre><a href=\"/!\">!</a></pre></li></ul>"
    ));
    let mut builder = ResBuilder::new("HTTP/1.1");
    builder.list_directory(Vec::new(), "/");
    assert!(body_text(builder.res()).contains("<hr/> <ul></ul> <hr/>"));
}

#[test]
fn sort_entries_test() {
    let entries = vec![
        entry("b", false),
        entry("z", true),
        entry("a", false),
        entry("B", false),
        entry("é", true),
        entry("a", true),
        entry("ab", false),
        entry("a", false),
        entry("", false),
    ];
    assert_eq!(
        sort_entries(&entries),
        vec![
            entry("a", true),
            entry("z", true),
            entry("é", true),
            entry("", false),
            entry("B", false),
            entry("a", false),
            entry("a", false),
            entry("ab", false),
            entry("b", false),
        ]
    );
    assert_eq!(sort_entries(&Vec::new()), Vec::new());
    let mut by_std = entries.clone();
    by_std.sort_by(|a, b| b.1.cmp(&a.1).then(a.0.cmp(&b.0)));
    assert_eq!(sort_entries(&entries), by_std);
}

#[test]
fn without_end_slashes_test() {
    assert_eq!(without_end_slashes("/"), "");
    assert_eq!(without_end_slashes(""), "");
    assert_eq!(without_end_slashes("/a/b"), "/a/b");
    assert_eq!(without_end_slashes("/a/b//"), "/a/b");
    assert_eq!(without_end_slashes("//é/"), "//é");
}

#[test]
fn file_body_test() {
    assert_eq!(STREAM_THRESHOLD, 1024 * 1024);
    assert!(!should_stream(0));
    assert!(!should_stream(1024 * 1024));
    assert!(should_stream(1024 * 1024 + 1));
    assert!(should_stream(u64::MAX));

    assert_eq!(
        compression_for("/srv/lipsum.html", Some(&SupportedEncoding::Gzip)),
        Some(SupportedEncoding::Gzip)
    );
    assert_eq!(
        compression_for("/srv/notes.txt", Some(&SupportedEncoding::Zstd)),
        Some(SupportedEncoding::Zstd)
    );
    assert_eq!(compression_for("/srv/lipsum.html", None), None);
    assert_eq!(compression_for("/srv/picture.png", Some(&SupportedEncoding::Br)), None);
    assert_eq!(compression_for("/srv/unknown", Some(&SupportedEncoding::Br)), None);

    assert_eq!(
        compression_for_mime(&Mime::new("text", "css"), Some(&SupportedEncoding::Deflate)),
        Some(SupportedEncoding::Deflate)
    );
    assert_eq!(compression_for_mime(&Mime::new("text", "css"), None), None);
    assert_eq!(
        compression_for_mime(&Mime::new("Text", "css"), Some(&SupportedEncoding::Gzip)),
        None
    );
    assert_eq!(
        compression_for_mime(&Mime::new("application", "text"), Some(&SupportedEncoding::Gzip)),
        None
    );
    let mut builder = ResBuilder::new("HTTP/1.1");
    builder.set_typed_body(Mime::new("a", "b"), Some(SupportedEncoding::Zstd), ResBody::Bytes(vec![]));
    assert_eq!(
        builder.res().head_string(),
        "HTTP/1.1 200 OK\r\nContent-Type: a/b\r\nContent-Encoding: zstd\r\n\r\n"
    );

    let mut builder = ResBuilder::new("HTTP/1.1");
    builder.set_file_body("/srv/lipsum.html", None, ResBody::Bytes(b"<p>hi</p>".to_vec()));
    let res = builder.do_build_at(String::from(FIXED_DATE));
    assert_eq!(
        res.head_string(),
        format!(
            "HTTP/1.1 200 OK\r\nContent-Type: text/html\r\nDate: {}\r\n\
             Server: rust-http-server\r\nContent-Length: 9\r\n\r\n",
            FIXED_DATE
        )
    );
    assert_eq!(body_text(res), "<p>hi</p>");

    let mut builder = ResBuilder::new("HTTP/1.1");
    builder.set_file_body(
        "/srv/data.json",
        Some(SupportedEncoding::Deflate),
        ResBody::Bytes(vec![1, 2, 3]),
    );
    let res = builder.do_build_at(String::from(FIXED_DATE));
    assert_eq!(
        res.head_string(),
        format!(
            "HTTP/1.1 200 OK\r\nContent-Type: application/json\r\nContent-Encoding: deflate\r\n\
             Date: {}\r\nServer: rust-http-server\r\nContent-Length: 3\r\n\r\n",
            FIXED_DATE
        )
    );
    let res = builder.into_res();
    assert_eq!(res.body_len(), 3);
}

#[test]
fn php_environment_test() {
    let params = PhpScriptParams {
        script_path: "/srv/www/dir/index.php",
        script_query: "a=1&b=2",
        used_credentials: Some((String::from("user"), String::from("secret"))),
        client_ip: "192.0.2.7:51234",
        verb: &ReqVerb::Post,
        server_name: "0.0.0.0",
        server_port: 8080,
        version: "HTTP/1.1",
    };
    let env = php_environment(&params).unwrap();
    let expected: Vec<(String, String)> = [
        ("AUTH_TYPE", "Basic"),
        ("CONTENT_LENGTH", ""),
        ("CONTENT_TYPE", ""),
        ("GATEWAY_INTERFACE", "1.1"),
        ("PATH_INFO", ""),
        ("PATH_TRANSLATED", ""),
        ("QUERY_STRING", "a=1&b=2"),
        ("REMOTE_ADDR", "192.0.2.7:51234"),
        ("REMOTE_HOST", "192.0.2.7:51234"),
        ("REMOTE_IDENT", ""),
        ("REMOTE_USER", "user"),
        ("REQUEST_METHOD", "POST"),
        ("SCRIPT_NAME", ""),
        ("SCRIPT_PATH", "index.php"),
        ("SCRIPT_FILENAME", "/srv/www/dir/index.php"),
        ("SERVER_NAME", "0.0.0.0"),
        ("SERVER_PORT", "8080"),
        ("SERVER_PROTOCOL", "HTTP/1.1"),
        ("SERVER_SOFTWARE", "rust-http-server"),
        ("REDIRECT_STATUS", "200"),
    ]
    .iter()
    .map(|(name, value)| (String::from(*name), String::from(*value)))
    .collect();
    assert_eq!(env, expected);

    let anonymous = PhpScriptParams { used_credentials: None, script_path: "/srv/..", ..params };
    assert_eq!(
        php_environment(&anonymous),
        Err(ResBuildingError::PhpError(String::from("Invalid script path")))
    );
    let anonymous = PhpScriptParams { used_credentials: None, ..anonymous };
    for bad in ["a.php/", "/", "", "/srv/.", ".."] {
        let nameless = PhpScriptParams {
            script_path: bad,
            used_credentials: None,
            script_query: anonymous.script_query,
            client_ip: anonymous.client_ip,
            verb: anonymous.verb,
            server_name: anonymous.server_name,
            server_port: anonymous.server_port,
            version: anonymous.version,
        };
        assert_eq!(
            php_environment(&nameless),
            Err(ResBuildingError::PhpError(String::from("Invalid script path")))
        );
    }
    let anonymous = PhpScriptParams { script_path: "a.php", verb: &ReqVerb::Get, ..anonymous };
    let env = php_environment(&anonymous).unwrap();
    assert_eq!(env[0], (String::from("AUTH_TYPE"), String::new()));
    assert_eq!(env[10], (String::from("REMOTE_USER"), String::new()));
    assert_eq!(env[11], (String::from("REQUEST_METHOD"), String::from("GET")));
    assert_eq!(env[13], (String::from("SCRIPT_PATH"), String::from("a.php")));
    assert_eq!(
        ResBuildingError::PhpError(String::from("Invalid script path")).to_string(),
        "PHP error: Invalid script path"
    );
}

#[test]
fn php_output_test() {
    assert_eq!(find_blank_line(b""), 0);
    assert_eq!(find_blank_line(b"\r\n\r"), 3);
    assert_eq!(find_blank_line(b"\r\n\r\n"), 0);
    assert_eq!(find_blank_line(b"a\r\n\r\nb\r\n\r\n"), 1);
    assert_eq!(find_blank_line(b"a\r\nb\n\r\n\r"), 8);

    let output = |success: bool, stdout: &[u8], stderr: &[u8]| PhpOutput {
        success,
        status: String::from("exit status: 255"),
        stdout: stdout.to_vec(),
        stderr: stderr.to_vec(),
    };

    let mut builder = ResBuilder::new("HTTP/1.1");
    let out = output(true, b"Content-type: text/html\r\nX-A: 1\r\n\r\n<p>\xff</p>\r\n\r\n", b"");
    assert_eq!(builder.set_php_output(out), Ok(()));
    let res = builder.do_build_at(String::from(FIXED_DATE));
    assert_eq!(
        res.head_string(),
        format!(
            "HTTP/1.1 200 OK\r\nDate: {}\r\nServer: rust-http-server\r\nContent-Length: 12\r\n\
             Content-type: text/html\r\nX-A: 1\r\n\r\n",
            FIXED_DATE
        )
    );
    match res.body_ref() {
        Some(ResBody::Bytes(bytes)) => assert_eq!(bytes, &b"<p>\xff</p>\r\n\r\n".to_vec()),
        _ => panic!("no body in memory"),
    }

    let invalid = Err(ResBuildingError::PhpError(String::from("Invalid script output")));
    let mut builder = ResBuilder::new("HTTP/1.1");
    assert_eq!(builder.set_php_output(output(true, b"no empty line\r\n", b"")), invalid);
    assert_eq!(builder.set_php_output(output(true, b"", b"")), invalid);
    assert_eq!(builder.set_php_output(output(true, b"X: \xff\r\n\r\nbody", b"")), invalid);
    assert!(builder.res().body_ref().is_none());
    assert_eq!(
        builder.set_php_output(output(false, b"X: 1\r\n\r\nbody", b"it broke")),
        Err(ResBuildingError::PhpError(String::from(
            "php-cgi error (exit status: 255): it broke"
        )))
    );
    assert_eq!(
        builder.set_php_output(output(false, b"", b"\xff")),
        Err(ResBuildingError::PhpError(String::from("php-cgi error (exit status: 255): ")))
    );
    assert_eq!(builder.set_php_output(output(true, b"\r\n\r\n", b"")), Ok(()));
    assert_eq!(builder.res().head_string(), "HTTP/1.1 200 OK\r\n\r\n\r\n");
    assert_eq!(builder.res().body_len(), 0);
}

#[test]
fn http_date_is_one_line_in_gmt_test() {
    let date = http_date();
    assert!(date.is_ascii());
    assert!(date.ends_with(" GMT"));
    assert!(!date.contains('\r') && !date.contains('\n'));
    assert_eq!(date.len(), 29);
    assert_eq!(&date[3..5], ", ");
    assert_eq!(&date[19..20], ":");

    let mut builder = ResBuilder::new("HTTP/1.1");
    let head = String::from_utf8(builder.do_build().head_bytes()).unwrap();
    let line = head.split("\r\n").find(|l| l.starts_with("Date: ")).unwrap();
    assert!(line.ends_with(" GMT"));
    assert_eq!(line.len(), 6 + 29);
}
