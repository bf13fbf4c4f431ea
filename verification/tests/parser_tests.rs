use compression::prelude::Action;
use compression::prelude::DecodeExt;
use compression::prelude::Deflater;
use compression::prelude::GZipDecoder;
use compression::prelude::EncodeExt;
use compression::prelude::GZipEncoder;
use compression::prelude::Inflater;
use rust_http_server::http_header::EntityHeader;
use rust_http_server::http_header::GeneralHeader;
use rust_http_server::http_header::HeaderMap;
use rust_http_server::http_header::HeaderValue;
use rust_http_server::http_header::HeaderValueMemberName;
use rust_http_server::http_header::HeaderValueMemberValue;
use rust_http_server::http_header::HeaderValueMembers;
use rust_http_server::http_header::Mime;
use rust_http_server::http_header::ParsedHeaderValue;
use rust_http_server::http_header::ReqHeader;
use rust_http_server::http_header::ReqOnlyHeader;
use rust_http_server::http_header::SimpleHeaderValue;
use rust_http_server::http_req::ReqHead;
use rust_http_server::http_req::ReqPath;
use rust_http_server::http_req::ReqTarget;
use rust_http_server::http_req::ReqVerb;
use rust_http_server::req_parser::decode_req_body;
use rust_http_server::req_parser::utils;
use rust_http_server::req_parser::utils::AtomKind;
use rust_http_server::req_parser::FirstLineParsingError;
use rust_http_server::req_parser::FloatReading;
use rust_http_server::req_parser::HeaderParsingError;
use rust_http_server::req_parser::ReqHeadParser;
use rust_http_server::req_parser::ReqHeadParsingError;
use rust_http_server::req_parser::SupportedEncoding;

fn read_floats(texts: Vec<String>) -> Vec<FloatReading> {
    texts
        .into_iter()
        .map(|text| FloatReading { bits: text.parse::<f32>().ok().map(f32::to_bits), text })
        .collect()
}

fn readings_for(value: &str) -> Vec<FloatReading> {
    read_floats(utils::quality_texts(value.as_bytes()))
}

fn float(text: &str) -> HeaderValueMemberValue {
    HeaderValueMemberValue::new_float(text, text.parse::<f32>().unwrap().to_bits())
}

fn members(pairs: Vec<(HeaderValueMemberName, HeaderValueMemberValue)>) -> HeaderValueMembers {
    let mut m = HeaderValueMembers::new();
    for (name, value) in pairs {
        m.insert(name, value);
    }
    m
}

fn parse_head(lines: &[&str]) -> Result<ReqHead, ReqHeadParsingError> {
    let mut parser = ReqHeadParser::new();
    for line in lines {
        assert!(!parser.is_complete());
        parser.process_bytes(line.as_bytes().to_vec())?;
    }
    assert!(parser.is_complete());
    let readings = read_floats(parser.quality_texts());
    parser.do_parse(&readings)
}

#[test]
fn parse_first_line_test() {
    assert_eq!(
        utils::parse_first_line("GET / HTTP/1.1".as_bytes()),
        Ok((
            ReqVerb::Get,
            ReqTarget::Path(ReqPath {
                decoded: String::from("/"),
                original: String::from("/"),
                query: String::new()
            }),
            String::from("HTTP/1.1")
        ))
    );

    assert_eq!(
        utils::parse_first_line("GET /dir/page.html HTTP/2.0".as_bytes()),
        Ok((
            ReqVerb::Get,
            ReqTarget::Path(ReqPath {
                decoded: String::from("/dir/page.html"),
                original: String::from("/dir/page.html"),
                query: String::new()
            }),
            String::from("HTTP/2.0")
        ))
    );

    assert_eq!(
        utils::parse_first_line(
            "GET %2Fr%C3%A9pertoire%20sp%C3%A9cial%2Ffichier%20%C3%A0%20tester HTTP/1.1".as_bytes()
        ),
        Ok((
            ReqVerb::Get,
            ReqTarget::Path(ReqPath {
                decoded: String::from("/répertoire spécial/fichier à tester"),
                original: String::from(
                    "%2Fr%C3%A9pertoire%20sp%C3%A9cial%2Ffichier%20%C3%A0%20tester"
                ),
                query: String::new()
            }),
            String::from("HTTP/1.1")
        ))
    );
}

#[test]
fn parse_first_line_errors_test() {
    let count = Err(ReqHeadParsingError::FirstLine(FirstLineParsingError::InvalidFieldCount));
    assert_eq!(utils::parse_first_line(b"GET HTTP/1.1"), count);
    assert_eq!(utils::parse_first_line(b""), count);
    assert_eq!(utils::parse_first_line(b"GET  / HTTP/1.1"), count);
    assert_eq!(utils::parse_first_line(b"GET / HTTP/1.1 "), count);
    assert_eq!(
        utils::parse_first_line(b"foo / HTTP/1.1"),
        Err(ReqHeadParsingError::FirstLine(FirstLineParsingError::InvalidVerb))
    );
    assert_eq!(
        utils::parse_first_line(b"get / HTTP/1.1"),
        Err(ReqHeadParsingError::FirstLine(FirstLineParsingError::InvalidVerb))
    );
    assert_eq!(
        utils::parse_first_line(b"GET /%FF HTTP/1.1"),
        Err(ReqHeadParsingError::FirstLine(FirstLineParsingError::InvalidTargetEncoding))
    );
}

#[test]
fn parse_http_verb_test() {
    assert_eq!(utils::parse_http_verb(b"GET"), Ok(ReqVerb::Get));
    assert_eq!(utils::parse_http_verb(b"POST"), Ok(ReqVerb::Post));
    assert_eq!(utils::parse_http_verb(b"PUT"), Ok(ReqVerb::Put));
    assert_eq!(utils::parse_http_verb(b"PATCH"), Ok(ReqVerb::Patch));
    assert_eq!(utils::parse_http_verb(b"DELETE"), Ok(ReqVerb::Delete));
    for bad in [&b"OPTIONS"[..], b"", b"Get", b"GET "] {
        assert_eq!(
            utils::parse_http_verb(bad),
            Err(ReqHeadParsingError::FirstLine(FirstLineParsingError::InvalidVerb))
        );
    }
}

#[test]
fn parse_http_target_test() {
    assert_eq!(utils::parse_http_target(b"*"), Ok(ReqTarget::All));
    assert_eq!(
        utils::parse_http_target(b"/a%20b/c?x=1&y=%20#frag?z"),
        Ok(ReqTarget::Path(ReqPath {
            original: String::from("/a%20b/c?x=1&y=%20#frag?z"),
            decoded: String::from("/a b/c"),
            query: String::from("x=1&y=%20"),
        }))
    );
    assert_eq!(
        utils::parse_http_target(b"/p?a?b"),
        Ok(ReqTarget::Path(ReqPath {
            original: String::from("/p?a?b"),
            decoded: String::from("/p"),
            query: String::from("a?b"),
        }))
    );
    assert_eq!(
        utils::parse_http_target(b"/p?"),
        Ok(ReqTarget::Path(ReqPath {
            original: String::from("/p?"),
            decoded: String::from("/p"),
            query: String::new(),
        }))
    );
    assert_eq!(
        utils::parse_http_target(b""),
        Ok(ReqTarget::Path(ReqPath {
            original: String::new(),
            decoded: String::new(),
            query: String::new(),
        }))
    );
    assert_eq!(
        utils::parse_http_target(b"/%C3"),
        Err(ReqHeadParsingError::FirstLine(FirstLineParsingError::InvalidTargetEncoding))
    );
}

#[test]
fn parse_header_test() {
    let none = Vec::new();
    assert_eq!(
        utils::parse_header(b"host", b"example.org", &none),
        Ok((ReqHeader::ReqOnly(ReqOnlyHeader::Host), HeaderValue::text("example.org")))
    );
    assert_eq!(
        utils::parse_header(b"connection", b"close", &none),
        Ok((ReqHeader::General(GeneralHeader::Connection), HeaderValue::text("close")))
    );
    assert_eq!(
        utils::parse_header(b"content-length", b"1234", &none),
        Ok((
            ReqHeader::Entity(EntityHeader::ContentLength),
            HeaderValue::Simple(SimpleHeaderValue::Number(1234))
        ))
    );
    assert_eq!(
        utils::parse_header(b"content-length", b"+18446744073709551615", &none),
        Ok((
            ReqHeader::Entity(EntityHeader::ContentLength),
            HeaderValue::Simple(SimpleHeaderValue::Number(18446744073709551615))
        ))
    );
    for bad in [&b"18446744073709551616"[..], b"", b"+", b"12a", b" 12", b"-1"] {
        assert_eq!(
            utils::parse_header(b"content-length", bad, &none),
            Err(ReqHeadParsingError::Header(HeaderParsingError::NumberParsing))
        );
    }
    assert_eq!(
        utils::parse_header(b"x-my-header", b"some value", &none),
        Ok((ReqHeader::Other(String::from("x-my-header")), HeaderValue::text("some value")))
    );
    assert_eq!(
        utils::parse_header(b"X-My-Header", b"1234", &none),
        Ok((ReqHeader::Other(String::from("X-My-Header")), HeaderValue::text("1234")))
    );
    assert_eq!(
        utils::parse_header(b"HoSt", b"example.org", &none),
        Ok((ReqHeader::ReqOnly(ReqOnlyHeader::Host), HeaderValue::text("example.org")))
    );
    assert_eq!(
        utils::parse_header(b"CONTENT-LENGTH", b"7", &none),
        Ok((
            ReqHeader::Entity(EntityHeader::ContentLength),
            HeaderValue::Simple(SimpleHeaderValue::Number(7))
        ))
    );
    assert_eq!(
        utils::parse_header(b"Pragma", b"no-cache", &none),
        Ok((ReqHeader::Other(String::from("Pragma")), HeaderValue::text("no-cache")))
    );
    assert_eq!(
        utils::parse_header(b"accept", b"text/html", &none),
        Ok((
            ReqHeader::ReqOnly(ReqOnlyHeader::Accept),
            HeaderValue::Parsed(ParsedHeaderValue(vec![(
                SimpleHeaderValue::Mime(Mime::new("text", "html")),
                HeaderValueMembers::new()
            )]))
        ))
    );
    assert_eq!(
        utils::parse_header(b"accept", b"foo", &none),
        Err(ReqHeadParsingError::Header(HeaderParsingError::InvalidMime))
    );
    assert_eq!(
        utils::parse_header(b"accept", b"", &none),
        Err(ReqHeadParsingError::Header(HeaderParsingError::InvalidMime))
    );
    assert_eq!(
        utils::parse_header(b"accept-language", b"fr, en", &none),
        Ok((
            ReqHeader::ReqOnly(ReqOnlyHeader::AcceptLanguage),
            HeaderValue::Parsed(ParsedHeaderValue(vec![
                (SimpleHeaderValue::String(String::from("fr")), HeaderValueMembers::new()),
                (SimpleHeaderValue::String(String::from("en")), HeaderValueMembers::new()),
            ]))
        ))
    );
    assert_eq!(
        utils::parse_header(b"authorization", b"Basic dXNlcjpwYXNz", &none),
        Ok((
            ReqHeader::ReqOnly(ReqOnlyHeader::Authorization),
            HeaderValue::Credentials(String::from("user"), String::from("pass"))
        ))
    );
}

#[test]
fn parse_header_value_test() {
    assert_eq!(
        utils::parse_header_value_plain("keep-alive".as_bytes(), &readings_for("keep-alive")),
        Ok(HeaderValue::Parsed(ParsedHeaderValue(vec![(
            SimpleHeaderValue::String(String::from("keep-alive")),
            HeaderValueMembers::new()
        )])))
    );

    let accept = "text/html,application/xhtml+xml,application/xml;q=0.9,image/avif,image/webp,image/apng,*/*;q=0.8,application/signed-exchange;v=b3;q=0.7";
    assert_eq!(
        utils::parse_header_value_plain(accept.as_bytes(), &readings_for(accept)),
        Ok(HeaderValue::Parsed(ParsedHeaderValue(vec![
            (SimpleHeaderValue::String(String::from("text/html")), HeaderValueMembers::new()),
            (
                SimpleHeaderValue::String(String::from("application/xhtml+xml")),
                HeaderValueMembers::new()
            ),
            (
                SimpleHeaderValue::String(String::from("application/xml")),
                members(vec![(HeaderValueMemberName::Quality, float("0.9"))])
            ),
            (SimpleHeaderValue::String(String::from("image/avif")), HeaderValueMembers::new()),
            (SimpleHeaderValue::String(String::from("image/webp")), HeaderValueMembers::new()),
            (SimpleHeaderValue::String(String::from("image/apng")), HeaderValueMembers::new()),
            (
                SimpleHeaderValue::String(String::from("*/*")),
                members(vec![(HeaderValueMemberName::Quality, float("0.8"))])
            ),
            (
                SimpleHeaderValue::String(String::from("application/signed-exchange")),
                members(vec![
                    (
                        HeaderValueMemberName::new_other("v"),
                        HeaderValueMemberValue::new_other("b3")
                    ),
                    (HeaderValueMemberName::Quality, float("0.7"))
                ])
            )
        ])))
    );

    assert_eq!(
        utils::parse_header_value_mime(accept.as_bytes(), &readings_for(accept)),
        Ok(HeaderValue::Parsed(ParsedHeaderValue(vec![
            (SimpleHeaderValue::Mime(Mime::new("text", "html")), HeaderValueMembers::new()),
            (
                SimpleHeaderValue::Mime(Mime::parse("application/xhtml+xml").unwrap()),
                HeaderValueMembers::new()
            ),
            (
                SimpleHeaderValue::Mime(Mime::parse("application/xml").unwrap()),
                members(vec![(HeaderValueMemberName::Quality, float("0.9"))])
            ),
            (
                SimpleHeaderValue::Mime(Mime::parse("image/avif").unwrap()),
                HeaderValueMembers::new()
            ),
            (
                SimpleHeaderValue::Mime(Mime::parse("image/webp").unwrap()),
                HeaderValueMembers::new()
            ),
            (
                SimpleHeaderValue::Mime(Mime::parse("image/apng").unwrap()),
                HeaderValueMembers::new()
            ),
            (
                SimpleHeaderValue::Mime(Mime::new("*", "*")),
                members(vec![(HeaderValueMemberName::Quality, float("0.8"))])
            ),
            (
                SimpleHeaderValue::Mime(Mime::parse("application/signed-exchange").unwrap()),
                members(vec![
                    (
                        HeaderValueMemberName::new_other("v"),
                        HeaderValueMemberValue::new_other("b3")
                    ),
                    (HeaderValueMemberName::Quality, float("0.7"))
                ])
            )
        ])))
    );
}

#[test]
fn parsed_value_structure_test() {
    let value = "text/html,application/xml;q=0.9,*/*;q=0.8";
    assert_eq!(utils::quality_texts(value.as_bytes()), vec!["0.9", "0.8"]);
    let parsed = utils::parse_header_value(value.as_bytes(), AtomKind::Mime, &readings_for(value));
    let list = match parsed {
        Ok(HeaderValue::Parsed(ParsedHeaderValue(list))) => list,
        other => panic!("not a list: {:?}", other),
    };
    assert_eq!(list.len(), 3);
    assert_eq!(list[0].0, SimpleHeaderValue::Mime(Mime::new("text", "html")));
    assert!(list[0].1.is_empty());
    assert_eq!(list[1].1.len(), 1);
    let (name, quality) = list[1].1.get(0);
    assert_eq!(*name, HeaderValueMemberName::Quality);
    assert_eq!(
        *quality,
        HeaderValueMemberValue::Float(String::from("0.9"), 0.9f32.to_bits())
    );
    assert_eq!(list[2].0, SimpleHeaderValue::Mime(Mime::new("*", "*")));
    assert_eq!(list[2].0.to_string(), "*/*");
    assert_eq!(list[2].1.len(), 1);
    let (name, quality) = list[2].1.get(0);
    assert_eq!(*name, HeaderValueMemberName::Quality);
    assert_eq!(
        *quality,
        HeaderValueMemberValue::Float(String::from("0.8"), 0.8f32.to_bits())
    );
}

#[test]
fn parse_value_and_attr_test() {
    let none = Vec::new();
    assert_eq!(
        utils::parse_value_and_attr(b"gzip", AtomKind::Plain, &none),
        Ok((SimpleHeaderValue::String(String::from("gzip")), HeaderValueMembers::new()))
    );
    assert_eq!(
        utils::parse_value_and_attr(b"a;b;c=d;B=x; q=1;c=e", AtomKind::Plain, &none),
        Ok((
            SimpleHeaderValue::String(String::from("a")),
            members(vec![
                (HeaderValueMemberName::new_other("b"), HeaderValueMemberValue::new_other("")),
                (HeaderValueMemberName::new_other("c"), HeaderValueMemberValue::new_other("e")),
                (HeaderValueMemberName::new_other("B"), HeaderValueMemberValue::new_other("x")),
                (HeaderValueMemberName::new_other(" q"), HeaderValueMemberValue::new_other("1")),
            ])
        ))
    );
    let readings = read_floats(vec![String::from("0.5"), String::from("1e-3")]);
    assert_eq!(
        utils::parse_value_and_attr(b"text/plain;Q=0.5", AtomKind::Mime, &readings),
        Ok((
            SimpleHeaderValue::Mime(Mime::new("text", "plain")),
            members(vec![(HeaderValueMemberName::Quality, float("0.5"))])
        ))
    );
    assert_eq!(
        utils::parse_value_and_attr(b"x;q=0.5;q=1e-3", AtomKind::Plain, &readings),
        Ok((
            SimpleHeaderValue::String(String::from("x")),
            members(vec![(HeaderValueMemberName::Quality, float("1e-3"))])
        ))
    );
    assert_eq!(
        utils::parse_value_and_attr(b"x;a=b=c", AtomKind::Plain, &none),
        Err(ReqHeadParsingError::Header(HeaderParsingError::InvalidMime))
    );
    assert_eq!(
        utils::parse_value_and_attr(b"not a mime;a=b", AtomKind::Mime, &none),
        Err(ReqHeadParsingError::Header(HeaderParsingError::InvalidMime))
    );
    assert_eq!(
        utils::parse_value_and_attr(b"not a mime;q=x", AtomKind::Mime, &none),
        Err(ReqHeadParsingError::Header(HeaderParsingError::InvalidFloat))
    );
}

#[test]
fn quality_must_be_a_finite_number_test() {
    let bad = Err(ReqHeadParsingError::Header(HeaderParsingError::InvalidFloat));
    for value in ["x;q=abc", "x;q", "x;q=", "x;q=inf", "x;q=NaN", "x;q=-infinity", "x;q=1e39"] {
        let readings = readings_for(value);
        assert_eq!(readings.len(), 1);
        assert_eq!(utils::parse_header_value_plain(value.as_bytes(), &readings), bad);
    }
    for value in ["x;q=0", "x;q=-0.0", "x;q=1", "x;q=.5", "x;q=3.4028235e38", "x;q=1e-46"] {
        let readings = readings_for(value);
        assert!(utils::parse_header_value_plain(value.as_bytes(), &readings).is_ok());
    }
    assert_eq!(utils::parse_header_value_plain(b"x;q=0.5", &Vec::new()), bad);
    let other = read_floats(vec![String::from("0.50")]);
    assert_eq!(utils::parse_header_value_plain(b"x;q=0.5", &other), bad);
}

#[test]
fn parse_authorization_header_test() {
    let bad = Err(ReqHeadParsingError::Header(HeaderParsingError::InvalidBasicCredentials));
    assert_eq!(
        utils::parse_authorization_header(b"Basic dXNlcjpwYXNz"),
        Ok(HeaderValue::Credentials(String::from("user"), String::from("pass")))
    );
    assert_eq!(
        utils::parse_authorization_header(b"Basic dTpwOnE6"),
        Ok(HeaderValue::Credentials(String::from("u"), String::from("p:q:")))
    );
    assert_eq!(
        utils::parse_authorization_header(b"Basic Og=="),
        Ok(HeaderValue::Credentials(String::new(), String::new()))
    );
    assert_eq!(
        utils::parse_authorization_header("Basic w6k6w6A=".as_bytes()),
        Ok(HeaderValue::Credentials(String::from("é"), String::from("à")))
    );
    assert_eq!(utils::parse_authorization_header(b"Basic dXNlcg=="), bad);
    assert_eq!(utils::parse_authorization_header(b"Basic "), bad);
    assert_eq!(utils::parse_authorization_header(b"Basic"), bad);
    assert_eq!(utils::parse_authorization_header(b"basic dXNlcjpwYXNz"), bad);
    assert_eq!(utils::parse_authorization_header(b"Bearer dXNlcjpwYXNz"), bad);
    assert_eq!(utils::parse_authorization_header(b"Basic dXNlcjpwYXNz trailing"), bad);
    assert_eq!(utils::parse_authorization_header(b"Basic not base64!"), bad);
    assert_eq!(utils::parse_authorization_header(b"Basic /zpw"), bad);
    assert_eq!(utils::parse_authorization_header(b""), bad);
}

#[test]
fn path_target_test() {
    assert_eq!(utils::encoded_path(b"/a%20b/c?x=1&y=%20#frag?z"), "/a%20b/c");
    assert_eq!(utils::encoded_path(b"?x"), "");
    assert_eq!(utils::encoded_path(b"/no-query#frag"), "/no-query#frag");
    assert_eq!(
        utils::path_target(b"/a%20b?x=1#top", Some(String::from("/a b"))),
        Ok(ReqTarget::Path(ReqPath {
            original: String::from("/a%20b?x=1#top"),
            decoded: String::from("/a b"),
            query: String::from("x=1"),
        }))
    );
    assert_eq!(
        utils::path_target(b"/p#f?q", Some(String::from("anything"))),
        Ok(ReqTarget::Path(ReqPath {
            original: String::from("/p#f?q"),
            decoded: String::from("anything"),
            query: String::from("q"),
        }))
    );
    assert_eq!(
        utils::path_target(b"/p", None),
        Err(ReqHeadParsingError::FirstLine(FirstLineParsingError::InvalidTargetEncoding))
    );
}

#[test]
fn credentials_from_decoded_test() {
    let bad = Err(ReqHeadParsingError::Header(HeaderParsingError::InvalidBasicCredentials));
    assert_eq!(
        utils::credentials_from_decoded(b"user:pass".to_vec()),
        Ok(HeaderValue::Credentials(String::from("user"), String::from("pass")))
    );
    assert_eq!(
        utils::credentials_from_decoded("é::à".as_bytes().to_vec()),
        Ok(HeaderValue::Credentials(String::from("é"), String::from(":à")))
    );
    assert_eq!(
        utils::credentials_from_decoded(b":".to_vec()),
        Ok(HeaderValue::Credentials(String::new(), String::new()))
    );
    assert_eq!(utils::credentials_from_decoded(b"user".to_vec()), bad);
    assert_eq!(utils::credentials_from_decoded(Vec::new()), bad);
    assert_eq!(utils::credentials_from_decoded(b"\xff:pass".to_vec()), bad);
    assert_eq!(utils::credentials_from_decoded(b"user:\xc3".to_vec()), bad);
}

#[test]
fn extract_supported_encoding_test() {
    let list = |atoms: &[&str]| -> Vec<(SimpleHeaderValue, HeaderValueMembers)> {
        atoms
            .iter()
            .map(|a| (SimpleHeaderValue::String(String::from(*a)), HeaderValueMembers::new()))
            .collect()
    };
    assert_eq!(utils::extract_supported_encoding(&list(&[])), Ok(None));
    assert_eq!(
        utils::extract_supported_encoding(&list(&["gzip"])),
        Ok(Some(SupportedEncoding::Gzip))
    );
    assert_eq!(
        utils::extract_supported_encoding(&list(&["identity", "br", "gzip"])),
        Ok(Some(SupportedEncoding::Br))
    );
    assert_eq!(
        utils::extract_supported_encoding(&list(&["zstd", "deflate"])),
        Ok(Some(SupportedEncoding::Zstd))
    );
    assert_eq!(
        utils::extract_supported_encoding(&list(&["x", "deflate"])),
        Ok(Some(SupportedEncoding::Deflate))
    );
    assert_eq!(
        utils::extract_supported_encoding(&list(&["identity", "GZIP", ""])),
        Err(ReqHeadParsingError::NoSupportedEncoding)
    );
    let number = vec![(SimpleHeaderValue::Number(1), HeaderValueMembers::new())];
    assert_eq!(
        utils::extract_supported_encoding(&number),
        Err(ReqHeadParsingError::NoSupportedEncoding)
    );
}

fn head_with_encoding(encoding: Option<&str>) -> ReqHead {
    let mut headers = HeaderMap::new();
    if let Some(e) = encoding {
        headers.insert(
            ReqHeader::Entity(EntityHeader::ContentEncoding),
            utils::parse_header_value_plain(e.as_bytes(), &readings_for(e)).unwrap(),
        );
    }
    ReqHead::new(ReqVerb::Post, ReqTarget::All, String::from("HTTP/1.1"), headers, None, None)
}

fn decode(codec: SupportedEncoding, body: &[u8]) -> Option<Vec<u8>> {
    match codec {
        SupportedEncoding::Gzip => {
            body.iter().cloned().decode(&mut GZipDecoder::new()).collect::<Result<Vec<u8>, _>>().ok()
        }
        SupportedEncoding::Deflate => {
            body.iter().cloned().decode(&mut Deflater::new()).collect::<Result<Vec<u8>, _>>().ok()
        }
        _ => None,
    }
}

fn decode_for(head: &ReqHead, body: &[u8]) -> Result<Vec<u8>, ReqHeadParsingError> {
    let decoded = match utils::body_decoder(head) {
        Ok(Some(codec)) => decode(codec, body),
        _ => None,
    };
    decode_req_body(head, body.to_vec(), decoded)
}

#[test]
fn decode_req_body_test() {
    let plain = b"Lorem ipsum dolor sit amet, consectetur adipiscing elit. Lorem ipsum.".to_vec();
    let gzipped = plain
        .iter()
        .cloned()
        .encode(&mut GZipEncoder::new(), Action::Finish)
        .collect::<Result<Vec<u8>, _>>()
        .unwrap();
    let deflated = plain
        .iter()
        .cloned()
        .encode(&mut Inflater::new(), Action::Finish)
        .collect::<Result<Vec<u8>, _>>()
        .unwrap();
    assert_ne!(gzipped, plain);
    assert_ne!(deflated, plain);
    assert_ne!(deflated, gzipped);

    assert_eq!(utils::body_decoder(&head_with_encoding(None)), Ok(None));
    assert_eq!(
        utils::body_decoder(&head_with_encoding(Some("gzip"))),
        Ok(Some(SupportedEncoding::Gzip))
    );
    assert_eq!(
        utils::body_decoder(&head_with_encoding(Some("identity, deflate;q=1"))),
        Ok(Some(SupportedEncoding::Deflate))
    );
    for other in ["br", "zstd", "compress", "identity", ""] {
        assert_eq!(
            utils::body_decoder(&head_with_encoding(Some(other))),
            Err(ReqHeadParsingError::NoSupportedEncoding)
        );
    }

    assert_eq!(decode_for(&head_with_encoding(None), &plain), Ok(plain.clone()));
    assert_eq!(decode_for(&head_with_encoding(Some("gzip")), &gzipped), Ok(plain.clone()));
    assert_eq!(decode_for(&head_with_encoding(Some("deflate")), &deflated), Ok(plain.clone()));
    assert_eq!(
        decode_for(&head_with_encoding(Some("identity, deflate")), &deflated),
        Ok(plain.clone())
    );
    assert_eq!(
        decode_req_body(&head_with_encoding(Some("gzip")), vec![1, 2, 3, 4], None),
        Err(ReqHeadParsingError::BodyDecoding)
    );
    assert_eq!(
        decode_req_body(&head_with_encoding(Some("br")), plain.clone(), Some(vec![1])),
        Err(ReqHeadParsingError::NoSupportedEncoding)
    );
    assert_eq!(
        decode_req_body(&head_with_encoding(None), plain.clone(), Some(vec![1])),
        Ok(plain.clone())
    );
    let mut headers = HeaderMap::new();
    headers.insert(ReqHeader::Entity(EntityHeader::ContentEncoding), HeaderValue::text("gzip"));
    let simple =
        ReqHead::new(ReqVerb::Post, ReqTarget::All, String::from("HTTP/1.1"), headers, None, None);
    assert_eq!(decode_for(&simple, &plain), Ok(plain.clone()));
    assert_eq!(
        utils::body_decoder_for(Some(&HeaderValue::Parsed(ParsedHeaderValue(vec![])))),
        Ok(None)
    );
}

#[test]
fn head_parser_lines_test() {
    let mut parser = ReqHeadParser::new();
    assert!(!parser.is_complete());
    assert_eq!(
        parser.process_bytes(b"\r\n".to_vec()),
        Err(ReqHeadParsingError::FirstLine(FirstLineParsingError::EmptyLine))
    );
    assert_eq!(
        parser.process_bytes(b"\n".to_vec()),
        Err(ReqHeadParsingError::FirstLine(FirstLineParsingError::EmptyLine))
    );
    assert_eq!(
        parser.process_bytes(Vec::new()),
        Err(ReqHeadParsingError::FirstLine(FirstLineParsingError::EmptyLine))
    );
    assert_eq!(
        parser.process_bytes("GET /caf\u{e9} HTTP/1.1\r\n".as_bytes().to_vec()),
        Err(ReqHeadParsingError::Ascii(8))
    );
    assert_eq!(parser.process_bytes(b"GET /lipsum.html HTTP/1.1\r\n".to_vec()), Ok(()));
    assert_eq!(
        parser.process_bytes(b"Host example.org\r\n".to_vec()),
        Err(ReqHeadParsingError::Header(HeaderParsingError::NoColon))
    );
    assert_eq!(
        parser.process_bytes(b"Host : example.org\r\n".to_vec()),
        Err(ReqHeadParsingError::Header(HeaderParsingError::SpaceBeforeColon))
    );
    assert_eq!(
        parser.process_bytes(vec![b'H', b':', 0xff, b'\n']),
        Err(ReqHeadParsingError::Ascii(2))
    );
    assert_eq!(parser.process_bytes(b"Host: example\r\n".to_vec()), Ok(()));
    assert_eq!(parser.process_bytes(b".org\r\n".to_vec()), Ok(()));
    assert_eq!(parser.process_bytes(b"X-Empty:\n".to_vec()), Ok(()));
    assert_eq!(parser.process_bytes(b"  HOST\t:   :8080 \r\n".to_vec()), Ok(()));
    assert_eq!(parser.process_bytes(b"Accept-Encoding: identity, br;q=0.5\n".to_vec()), Ok(()));
    assert!(!parser.is_complete());
    assert_eq!(parser.process_bytes(b"\r\n".to_vec()), Ok(()));
    assert!(parser.is_complete());
    assert_eq!(parser.quality_texts(), vec!["0.5"]);

    let readings = read_floats(parser.quality_texts());
    let head = parser.do_parse(&readings).unwrap();
    assert_eq!(head.first_line(), "GET /lipsum.html HTTP/1.1");
    assert_eq!(
        head.headers().get(&ReqHeader::ReqOnly(ReqOnlyHeader::Host)),
        Some(&HeaderValue::text("example.org:8080 "))
    );
    assert_eq!(
        head.headers().get(&ReqHeader::Other(String::from("X-Empty"))),
        Some(&HeaderValue::text(""))
    );
    assert_eq!(head.headers().len(), 3);
    assert_eq!(head.accepted_encoding(), Some(&SupportedEncoding::Br));
    assert_eq!(head.auth_creds(), None);
    assert_eq!(
        head.to_string(),
        "GET /lipsum.html HTTP/1.1\r\nHost: example.org:8080 \r\nX-Empty: \r\n\
         Accept-Encoding: identity,br;q=0.5\r\n"
    );

    parser.reset();
    assert!(!parser.is_complete());
    assert_eq!(parser.quality_texts(), Vec::<String>::new());
    assert_eq!(
        parser.do_parse(&Vec::new()).err(),
        Some(ReqHeadParsingError::FirstLine(FirstLineParsingError::InvalidFieldCount))
    );
    assert!(!ReqHeadParser::default().is_complete());
}

#[test]
fn head_parser_only_takes_one_end_of_line_test() {
    let mut parser = ReqHeadParser::new();
    assert_eq!(parser.process_bytes(b"GET / HTTP/1.1".to_vec()), Ok(()));
    assert_eq!(parser.process_bytes(b"A: 1\r\r\n".to_vec()), Ok(()));
    assert_eq!(parser.process_bytes(b"B: 2\n\n".to_vec()), Ok(()));
    assert_eq!(parser.process_bytes(b" folded\r\n".to_vec()), Ok(()));
    assert_eq!(parser.process_bytes(b"\n".to_vec()), Ok(()));
    let head = parser.do_parse(&Vec::new()).unwrap();
    assert_eq!(
        head.headers().get(&ReqHeader::Other(String::from("A"))),
        Some(&HeaderValue::text("1\r"))
    );
    assert_eq!(
        head.headers().get(&ReqHeader::Other(String::from("B"))),
        Some(&HeaderValue::text("2\n folded"))
    );
}

#[test]
fn head_parser_typed_head_test() {
    let head = parse_head(&[
        "GET / HTTP/1.1\r\n",
        "Authorization: Basic dXNlcjpwYXNz\r\n",
        "Connection: close\r\n",
        "Accept: text/*;q=0.5, image/png\r\n",
        "\r\n",
    ])
    .unwrap();
    assert_eq!(head.auth_creds(), Some(&(String::from("user"), String::from("pass"))));
    assert!(head.should_close());
    assert_eq!(head.accepted_encoding(), None);
    assert_eq!(
        head.headers().get(&ReqHeader::ReqOnly(ReqOnlyHeader::Accept)),
        Some(&HeaderValue::Parsed(ParsedHeaderValue(vec![
            (
                SimpleHeaderValue::Mime(Mime::new("text", "*")),
                members(vec![(HeaderValueMemberName::Quality, float("0.5"))])
            ),
            (SimpleHeaderValue::Mime(Mime::new("image", "png")), HeaderValueMembers::new()),
        ])))
    );

    assert_eq!(
        parse_head(&["GET / HTTP/1.1\n", "Accept-Encoding: identity\n", "\n"]).err(),
        Some(ReqHeadParsingError::NoSupportedEncoding)
    );
    for empty in ["Accept-Encoding:\r\n", "Accept-Encoding: \n", "accept-encoding:  \t\r\n"] {
        let head = parse_head(&["GET / HTTP/1.1\r\n", empty, "\r\n"]).unwrap();
        assert_eq!(head.accepted_encoding(), None);
        assert_eq!(head.headers().len(), 1);
    }
    let absent = parse_head(&["GET / HTTP/1.1\r\n", "\r\n"]).unwrap();
    assert_eq!(absent.accepted_encoding(), None);
    assert_eq!(
        parse_head(&["GET / HTTP/1.1\n", "Accept-Encoding: ,\n", "\n"]).err(),
        Some(ReqHeadParsingError::NoSupportedEncoding)
    );
    assert_eq!(
        parse_head(&["GET / HTTP/1.1\n", "Accept-Encoding: ;q=1\n", "\n"]).err(),
        Some(ReqHeadParsingError::NoSupportedEncoding)
    );
    assert_eq!(
        parse_head(&["GET / HTTP/1.1\n", "Authorization: nope\n", "\n"]).err(),
        Some(ReqHeadParsingError::Header(HeaderParsingError::InvalidBasicCredentials))
    );
    assert_eq!(
        parse_head(&["GET / HTTP/1.1\n", "Content-Length: ten\n", "\n"]).err(),
        Some(ReqHeadParsingError::Header(HeaderParsingError::NumberParsing))
    );
    assert_eq!(
        parse_head(&["GET / HTTP/1.1\n", "Accept: text/html;q=high\n", "\n"]).err(),
        Some(ReqHeadParsingError::Header(HeaderParsingError::InvalidFloat))
    );
    assert_eq!(
        parse_head(&["GET / HTTP/1.1\n", "Content-Length: x\n", "Accept: y\n", "\n"]).err(),
        Some(ReqHeadParsingError::Header(HeaderParsingError::NumberParsing))
    );
    assert_eq!(
        parse_head(&["BREW / HTTP/1.1\n", "Content-Length: x\n", "\n"]).err(),
        Some(ReqHeadParsingError::FirstLine(FirstLineParsingError::InvalidVerb))
    );
}

#[test]
fn unknown_names_keep_their_spelling_test() {
    let head = parse_head(&[
        "GET / HTTP/1.1\r\n",
        "X-My-Header: 1234\r\n",
        "x-my-header: 5\r\n",
        "X-MY-OTHER:a\r\n",
        "\r\n",
    ])
    .unwrap();
    assert_eq!(head.headers().len(), 2);
    assert_eq!(
        head.headers().get(&ReqHeader::Other(String::from("X-My-Header"))),
        Some(&HeaderValue::text("12345"))
    );
    assert_eq!(head.headers().get(&ReqHeader::Other(String::from("x-my-header"))), None);
    assert_eq!(
        head.headers().get(&ReqHeader::Other(String::from("X-MY-OTHER"))),
        Some(&HeaderValue::text("a"))
    );
    assert!(head.to_string().contains("X-My-Header: 12345\r\n"));
    assert_eq!(
        head.to_string(),
        "GET / HTTP/1.1\r\nX-My-Header: 12345\r\nX-MY-OTHER: a\r\n"
    );
}

#[test]
fn head_round_trip_test() {
    let lines = [
        "GET /a%20b?x=1 HTTP/1.1\r\n",
        "Host: example.org\r\n",
        "Accept: text/html;q=0.9,*/*\r\n",
        "Accept-Encoding:  gzip ,br;Q=0.5;q=0.50 , x;a\r\n",
        "Accept-Language: fr;=,en;b=c;a=d;b=e\r\n",
        "Content-Length: +0012\r\n",
        "authorization: Basic w6k6w6A=\r\n",
        "IF-MATCH:*\r\n",
        "X-Other: some value\r\n",
        "\r\n",
    ];
    let head = parse_head(&lines).unwrap();
    let wire = head.to_string();
    let again: Vec<&str> = wire.split_inclusive("\r\n").collect();
    let mut relines = again.clone();
    relines.push("\r\n");
    let reparsed = parse_head(&relines).unwrap();
    assert_eq!(
        wire,
        "GET /a%20b?x=1 HTTP/1.1\r\nHost: example.org\r\nAccept: text/html;q=0.9,*/*\r\n\
         Accept-Encoding: gzip,br;q=0.50,x;a=\r\nAccept-Language: fr;=,en;a=d;b=e\r\n\
         Content-Length: 12\r\nAuthorization: Basic w6k6w6A=\r\nIf-Match: *\r\n\
         X-Other: some value\r\n"
    );
    assert_eq!(reparsed.to_string(), wire);
    assert_eq!(reparsed.headers(), head.headers());
    assert_eq!(reparsed.first_line(), head.first_line());
    assert_eq!(reparsed.accepted_encoding(), head.accepted_encoding());
    assert_eq!(reparsed.auth_creds(), head.auth_creds());
    assert_eq!(head.auth_creds(), Some(&(String::from("é"), String::from("à"))));
    assert_eq!(*reparsed.verb(), *head.verb());
    assert_eq!(reparsed.target(), head.target());
    assert_eq!(reparsed.version(), head.version());
}

#[test]
fn media_types_come_back_test() {
    let html = Mime::parse("text/html").unwrap();
    assert!(utils::mime_comes_back(&html));
    let any = Mime::parse("*/*").unwrap();
    assert!(utils::mime_comes_back(&any));
    let svg = Mime::parse("image/svg+xml").unwrap();
    assert!(utils::mime_comes_back(&svg));
    let upper = Mime::parse("Text/HTML").unwrap();
    assert_eq!(upper.to_string(), "text/html");
    assert!(utils::mime_comes_back(&upper));
    // With a parameter the written form holds a semicolon, which ends an
    // atom of a list.
    let with_charset = Mime::new("text", "html").with_param("charset", "utf-8");
    assert!(!utils::mime_comes_back(&with_charset));
    let spaced = Mime::new("text", "plain html");
    assert!(!utils::mime_comes_back(&spaced));
    let accented = Mime::new("texte", "é");
    assert!(!utils::mime_comes_back(&accented));
}

#[test]
fn heads_outside_the_round_trip_test() {
    // A value that begins with whitespace is read again without it.
    let folded = parse_head(&["GET / HTTP/1.1\r\n", "X-Note:\r\n", " folded\r\n", "\r\n"]).unwrap();
    let name = ReqHeader::Other(String::from("X-Note"));
    assert_eq!(folded.headers().get(&name), Some(&HeaderValue::text(" folded")));
    let wire = folded.to_string();
    assert_eq!(wire, "GET / HTTP/1.1\r\nX-Note:  folded\r\n");
    let mut lines: Vec<&str> = wire.split_inclusive("\r\n").collect();
    lines.push("\r\n");
    let again = parse_head(&lines).unwrap();
    assert_eq!(again.headers().get(&name), Some(&HeaderValue::text("folded")));

    // Members are written in the order of their names; one that ends in
    // whitespace and comes last is read again without it.
    let spaced =
        parse_head(&["GET / HTTP/1.1\r\n", "Accept-Language: a;z=1 ;b=2\r\n", "\r\n"]).unwrap();
    let wire = spaced.to_string();
    assert_eq!(wire, "GET / HTTP/1.1\r\nAccept-Language: a;b=2;z=1 \r\n");
    let mut lines: Vec<&str> = wire.split_inclusive("\r\n").collect();
    lines.push("\r\n");
    let again = parse_head(&lines).unwrap();
    assert_eq!(again.to_string(), "GET / HTTP/1.1\r\nAccept-Language: a;b=2;z=1\r\n");
    assert_ne!(again.headers(), spaced.headers());
}
