use rust_http_server::http_header::EntityHeader;
use rust_http_server::http_header::GeneralHeader;
use rust_http_server::http_header::HeaderMap;
use rust_http_server::http_header::HeaderValue;
use rust_http_server::http_header::HeaderValueMemberName;
use rust_http_server::http_header::HeaderValueMemberValue;
use rust_http_server::http_header::HeaderValueMembers;
use rust_http_server::http_header::Mime;
use rust_http_server::http_header::ParsedHeaderValue;
use rust_http_server::http_header::ReqHeader;
use rust_http_server::http_header::ReqOnlyHeader;
use rust_http_server::http_header::ResHeader;
use rust_http_server::http_header::ResOnlyHeader;
use rust_http_server::http_header::SimpleHeaderValue;
use rust_http_server::utils::are_mime_compatible;

fn members(pairs: Vec<(HeaderValueMemberName, HeaderValueMemberValue)>) -> HeaderValueMembers {
    let mut m = HeaderValueMembers::new();
    for (name, value) in pairs {
        m.insert(name, value);
    }
    m
}

#[test]
fn display_parsed_header_value_test() {
    let mut h = ParsedHeaderValue(vec![(
        SimpleHeaderValue::String(String::from("my header value")),
        HeaderValueMembers::new(),
    )]);
    assert_eq!(h.to_string(), "my header value");

    h = ParsedHeaderValue(vec![(
        SimpleHeaderValue::Number(68),
        members(vec![(
            HeaderValueMemberName::Quality,
            HeaderValueMemberValue::new_float("0.32", 0.32f32.to_bits()),
        )]),
    )]);
    assert_eq!(h.to_string(), "68;q=0.32");

    h = ParsedHeaderValue(vec![(
        SimpleHeaderValue::Mime(Mime::new("text", "html")),
        members(vec![
            (
                HeaderValueMemberName::Quality,
                HeaderValueMemberValue::new_float("0.32", 0.32f32.to_bits()),
            ),
            (
                HeaderValueMemberName::Other(String::from("my-attr")),
                HeaderValueMemberValue::Other(String::from("my attribute value")),
            ),
            (
                HeaderValueMemberName::Other(String::from("my-other-attr")),
                HeaderValueMemberValue::Other(String::from("my other attribute value")),
            ),
        ]),
    )]);
    assert_eq!(
        h.to_string(),
        "text/html;q=0.32;my-attr=my attribute value;my-other-attr=my other attribute value"
    );
}

#[test]
fn are_mime_compatible_test() {
    let text_star = Mime::new("text", "*");
    let text_html = Mime::new("text", "html");
    let text_plain = Mime::new("text", "plain");
    let text_javascript = Mime::new("text", "javascript");
    let image_png = Mime::new("image", "png");
    let application_json = Mime::new("application", "json");
    let star_star = Mime::new("*", "*");

    assert!(are_mime_compatible(&text_star, &text_html));
    assert!(are_mime_compatible(&text_star, &text_plain));
    assert!(are_mime_compatible(&text_star, &text_javascript));
    assert!(are_mime_compatible(&text_html, &text_html));

    assert!(!are_mime_compatible(&text_html, &image_png));
    assert!(!are_mime_compatible(&application_json, &text_html));

    assert!(are_mime_compatible(&star_star, &text_html));
    assert!(are_mime_compatible(&star_star, &image_png));
}

#[test]
fn mime_compatibility_is_reflexive_and_widens_test() {
    for text in ["text/html", "image/svg+xml", "application/json", "*/*", "text/*"] {
        let m = Mime::parse(text).unwrap();
        assert!(are_mime_compatible(&m, &m));
        assert!(are_mime_compatible(&Mime::new("*", "*"), &m));
        let any_subtype = Mime::new(m.kind.as_str(), "*");
        assert!(are_mime_compatible(&any_subtype, &m));
    }
    assert!(!are_mime_compatible(&Mime::new("text", "*"), &Mime::new("image", "png")));
    assert!(!are_mime_compatible(&Mime::new("text", "html"), &Mime::new("*", "*")));
}

#[test]
fn mime_parse_test() {
    let m = Mime::parse("image/svg+xml").unwrap();
    assert_eq!(m.kind, "image");
    assert_eq!(m.subtype, "svg");
    assert_eq!(m.suffix, Some(String::from("xml")));
    assert_eq!(m.essence_str(), "image/svg+xml");
    let m = Mime::parse("Text/HTML; charset=utf-8").unwrap();
    assert_eq!(m, Mime::new("text", "html").with_param("charset", "utf-8"));
    assert_ne!(m, Mime::new("text", "html"));
    assert_eq!(m.essence_str(), "text/html");
    assert_eq!(m.to_string(), "text/html; charset=utf-8");
    assert_eq!(Mime::new("text", "html").to_string(), "text/html");
    let m = Mime::parse("multipart/form-data; boundary=ABCDEFG; a=b").unwrap();
    assert_eq!(m.params, vec![
        (String::from("boundary"), String::from("ABCDEFG")),
        (String::from("a"), String::from("b")),
    ]);
    assert_eq!(m.to_string(), "multipart/form-data; boundary=ABCDEFG; a=b");
    assert_eq!(m.duplicate(), m);
    assert_eq!(Mime::parse("*/*"), Some(Mime::new("*", "*")));
    assert_eq!(Mime::parse("foo"), None);
    assert_eq!(Mime::parse(""), None);
}

#[test]
fn mime_guess_test() {
    assert_eq!(Mime::guess("/srv/www/lipsum.html"), Mime::new("text", "html"));
    assert_eq!(Mime::guess("picture.PNG"), Mime::new("image", "png"));
    assert_eq!(Mime::guess("/srv/www/no-extension"), Mime::new("application", "octet-stream"));
    assert_eq!(Mime::guess("notes.txt"), Mime::new("text", "plain"));
}

#[test]
fn header_names_on_the_wire_test() {
    assert_eq!(GeneralHeader::CacheControl.to_string(), "Cache-Control");
    assert_eq!(GeneralHeader::TransferEncoding.to_string(), "Transfer-Encoding");
    assert_eq!(ReqOnlyHeader::IfUnmodifiedSince.to_string(), "If-Unmodified-Since");
    assert_eq!(ReqOnlyHeader::TE.to_string(), "TE");
    assert_eq!(ResOnlyHeader::WWWAuthenticate.to_string(), "WWW-Authenticate");
    assert_eq!(EntityHeader::ContentMD5.to_string(), "Content-MD5");
    assert_eq!(ReqHeader::General(GeneralHeader::Date).to_string(), "Date");
    assert_eq!(ReqHeader::Other(String::from("X-My-Header")).to_string(), "X-My-Header");
    assert_eq!(ResHeader::Entity(EntityHeader::ContentType).to_string(), "Content-Type");
    assert_eq!(ResHeader::ResOnly(ResOnlyHeader::ETag).to_string(), "ETag");
}

#[test]
fn header_values_on_the_wire_test() {
    assert_eq!(HeaderValue::Simple(SimpleHeaderValue::Number(0)).to_string(), "0");
    assert_eq!(
        HeaderValue::Simple(SimpleHeaderValue::Number(18446744073709551615)).to_string(),
        "18446744073709551615"
    );
    assert_eq!(HeaderValue::text("keep-alive").to_string(), "keep-alive");
    assert_eq!(
        HeaderValue::Credentials(String::from("user"), String::from("pass:word")).to_string(),
        "Basic dXNlcjpwYXNzOndvcmQ="
    );
    assert_eq!(
        HeaderValue::Credentials(String::from("é"), String::from("à")).to_string(),
        "Basic w6k6w6A="
    );
    assert_eq!(HeaderValue::Credentials(String::new(), String::new()).to_string(), "Basic Og==");
    let two = ParsedHeaderValue(vec![
        (SimpleHeaderValue::String(String::from("gzip")), HeaderValueMembers::new()),
        (
            SimpleHeaderValue::String(String::from("br")),
            members(vec![(
                HeaderValueMemberName::Quality,
                HeaderValueMemberValue::new_float("0.5", 0.5f32.to_bits()),
            )]),
        ),
    ]);
    assert_eq!(HeaderValue::Parsed(two).to_string(), "gzip,br;q=0.5");
    assert_eq!(ParsedHeaderValue(vec![]).to_string(), "");
}

#[test]
fn members_are_kept_in_the_order_of_their_names_test() {
    let m = members(vec![
        (HeaderValueMemberName::new_other("v"), HeaderValueMemberValue::new_other("b3")),
        (HeaderValueMemberName::new_other("a"), HeaderValueMemberValue::new_other("1")),
        (
            HeaderValueMemberName::Quality,
            HeaderValueMemberValue::new_float("0.7", 0.7f32.to_bits()),
        ),
        (HeaderValueMemberName::new_other("ab"), HeaderValueMemberValue::new_other("2")),
        (HeaderValueMemberName::new_other("a"), HeaderValueMemberValue::new_other("3")),
    ]);
    assert_eq!(m.len(), 4);
    assert!(!m.is_empty());
    assert_eq!(m.to_string(), "q=0.7;a=3;ab=2;v=b3");
    let (name, value) = m.get(0);
    assert_eq!(*name, HeaderValueMemberName::Quality);
    assert_eq!(*value, HeaderValueMemberValue::Float(String::from("0.7"), 0.7f32.to_bits()));
    assert_eq!(m.clone(), m);
    assert!(HeaderValueMembers::new().is_empty());
}

#[test]
fn header_map_test() {
    let mut map: HeaderMap<ResHeader> = HeaderMap::new();
    assert_eq!(map.len(), 0);
    map.insert(ResHeader::General(GeneralHeader::Connection), HeaderValue::text("keep-alive"));
    map.insert(ResHeader::ResOnly(ResOnlyHeader::Server), HeaderValue::text("a"));
    map.insert(ResHeader::Other(String::from("X-A")), HeaderValue::text("1"));
    map.insert(ResHeader::ResOnly(ResOnlyHeader::Server), HeaderValue::text("b"));
    assert_eq!(map.len(), 3);
    assert!(map.contains_key(&ResHeader::Other(String::from("X-A"))));
    assert!(!map.contains_key(&ResHeader::Other(String::from("x-a"))));
    assert_eq!(
        map.get(&ResHeader::ResOnly(ResOnlyHeader::Server)),
        Some(&HeaderValue::text("b"))
    );
    assert_eq!(map.get(&ResHeader::General(GeneralHeader::Date)), None);
    assert_eq!(map.to_string(), "Connection: keep-alive\r\nServer: b\r\nX-A: 1\r\n");
    let (name, value) = map.entry(1);
    assert_eq!(*name, ResHeader::ResOnly(ResOnlyHeader::Server));
    assert_eq!(*value, HeaderValue::text("b"));
    let same = HeaderMap::from_entries(vec![
        (ResHeader::General(GeneralHeader::Connection), HeaderValue::text("close")),
        (ResHeader::ResOnly(ResOnlyHeader::Server), HeaderValue::text("b")),
        (ResHeader::Other(String::from("X-A")), HeaderValue::text("1")),
        (ResHeader::General(GeneralHeader::Connection), HeaderValue::text("keep-alive")),
    ]);
    assert_eq!(map, same);
    let reordered = HeaderMap::from_entries(vec![
        (ResHeader::Other(String::from("X-A")), HeaderValue::text("1")),
        (ResHeader::ResOnly(ResOnlyHeader::Server), HeaderValue::text("b")),
        (ResHeader::General(GeneralHeader::Connection), HeaderValue::text("keep-alive")),
    ]);
    assert_eq!(map, reordered);
    assert_eq!(reordered, map);
    assert_ne!(map.to_string(), reordered.to_string());
    let other_value = HeaderMap::from_entries(vec![
        (ResHeader::Other(String::from("X-A")), HeaderValue::text("2")),
        (ResHeader::ResOnly(ResOnlyHeader::Server), HeaderValue::text("b")),
        (ResHeader::General(GeneralHeader::Connection), HeaderValue::text("keep-alive")),
    ]);
    assert_ne!(map, other_value);
    let other_name = HeaderMap::from_entries(vec![
        (ResHeader::Other(String::from("x-a")), HeaderValue::text("1")),
        (ResHeader::ResOnly(ResOnlyHeader::Server), HeaderValue::text("b")),
        (ResHeader::General(GeneralHeader::Connection), HeaderValue::text("keep-alive")),
    ]);
    assert_ne!(map, other_name);
    let fewer = HeaderMap::from_entries(vec![(
        ResHeader::ResOnly(ResOnlyHeader::Server),
        HeaderValue::text("b"),
    )]);
    assert_ne!(map, fewer);
    assert_ne!(fewer, map);
    assert_eq!(HeaderMap::<ResHeader>::new(), HeaderMap::new());
}
