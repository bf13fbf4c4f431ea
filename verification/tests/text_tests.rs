use rust_http_server::text::ascii_prefix_len;
use rust_http_server::text::bytes_eq;
use rust_http_server::text::bytes_lt;
use rust_http_server::text::chars_vec;
use rust_http_server::text::copy_range;
use rust_http_server::text::decimal_string;
use rust_http_server::text::find_byte;
use rust_http_server::text::leading_space;
use rust_http_server::text::lower_bytes;
use rust_http_server::text::parse_number_bytes;
use rust_http_server::text::split_bytes;
use rust_http_server::text::split_chars;
use rust_http_server::text::str_eq;
use rust_http_server::text::string_from_chars;
use rust_http_server::text::string_of;
use rust_http_server::text::trailing_space;
use rust_http_server::text::trim_bytes;
use rust_http_server::text::trim_start_bytes;

const SAMPLES: [&str; 16] = [
    "",
    " ",
    "a",
    "  \twhite \tspace  \t",
    "\r\n",
    "\x0b\x0cx\x0b\x0c",
    "Host: example.org",
    "a,b,,c,",
    ",",
    ",,",
    "GET / HTTP/1.1",
    "  GET   /  ",
    "text/html;q=0.9, */*;q=0.8",
    "MiXeD CaSe [\\]^_` @AZaz{",
    "\x00\x7f",
    "=a==b=",
];

#[test]
fn split_agrees_with_ascii_test() {
    for sample in SAMPLES {
        let text = ascii::AsciiStr::from_ascii(sample).unwrap();
        for sep in [b',', b' ', b'=', b';', b'/', b'a'] {
            let expected: Vec<Vec<u8>> = text
                .split(ascii::AsciiChar::from_ascii(sep).unwrap())
                .map(|piece| piece.as_bytes().to_vec())
                .collect();
            assert_eq!(split_bytes(sample.as_bytes(), sep), expected, "{:?} at {}", sample, sep);
            let by_std: Vec<Vec<u8>> =
                sample.as_bytes().split(|b| *b == sep).map(|piece| piece.to_vec()).collect();
            assert_eq!(split_bytes(sample.as_bytes(), sep), by_std);
            let chars: Vec<char> = sample.chars().collect();
            let pieces: Vec<String> = split_chars(&chars, sep as char)
                .iter()
                .map(|piece| piece.iter().collect())
                .collect();
            let by_std: Vec<String> = sample.split(sep as char).map(String::from).collect();
            assert_eq!(pieces, by_std);
        }
    }
    assert_eq!(split_bytes(b"", b','), vec![Vec::<u8>::new()]);
    assert_eq!(split_bytes(b"a,b", b','), vec![b"a".to_vec(), b"b".to_vec()]);
}

#[test]
fn trim_agrees_with_ascii_test() {
    for sample in SAMPLES {
        let text = ascii::AsciiStr::from_ascii(sample).unwrap();
        assert_eq!(trim_bytes(sample.as_bytes()), text.trim().as_bytes().to_vec(), "{:?}", sample);
        assert_eq!(
            trim_start_bytes(sample.as_bytes()),
            text.trim_start().as_bytes().to_vec(),
            "{:?}",
            sample
        );
        assert_eq!(leading_space(sample.as_bytes()), text.len() - text.trim_start().len());
        assert_eq!(trailing_space(sample.as_bytes()), text.len() - text.trim_end().len());
    }
    assert_eq!(trim_bytes(b"  \twhite \tspace  \t"), b"white \tspace".to_vec());
    assert_eq!(trim_start_bytes(b"  \twhite \tspace  \t"), b"white \tspace  \t".to_vec());
    assert_eq!(trim_bytes(b" \t\r\n\x0b\x0c"), Vec::<u8>::new());
    assert_eq!(trim_bytes(b"\x1fa\x1f"), b"\x1fa\x1f".to_vec());
}

#[test]
fn lower_agrees_with_ascii_test() {
    for sample in SAMPLES {
        let text = ascii::AsciiStr::from_ascii(sample).unwrap();
        assert_eq!(
            lower_bytes(sample.as_bytes()),
            text.to_ascii_lowercase().as_bytes().to_vec()
        );
    }
    assert_eq!(lower_bytes(b"@AZ[`az{ Content-MD5"), b"@az[`az{ content-md5".to_vec());
    assert_eq!(lower_bytes(&[0xc9, 0xe9]), vec![0xc9, 0xe9]);
}

#[test]
fn ascii_prefix_agrees_with_ascii_test() {
    let samples: [&[u8]; 6] =
        [b"", b"plain", b"caf\xc3\xa9", b"\x80", b"\x7f\x80", "é à".as_bytes()];
    for sample in samples {
        let expected = match ascii::AsciiStr::from_ascii(sample) {
            Ok(_) => sample.len(),
            Err(e) => e.valid_up_to(),
        };
        assert_eq!(ascii_prefix_len(sample), expected, "{:?}", sample);
    }
    assert_eq!(ascii_prefix_len(b"caf\xc3\xa9"), 3);
}

#[test]
fn find_and_copy_test() {
    let text = b"a:b:c";
    assert_eq!(find_byte(text, 0, b':'), 1);
    assert_eq!(find_byte(text, 1, b':'), 1);
    assert_eq!(find_byte(text, 2, b':'), 3);
    assert_eq!(find_byte(text, 4, b':'), 5);
    assert_eq!(find_byte(text, 5, b':'), 5);
    assert_eq!(find_byte(b"", 0, b':'), 0);
    assert_eq!(copy_range(text, 2, 5), b"b:c".to_vec());
    assert_eq!(copy_range(text, 3, 3), Vec::<u8>::new());
    assert_eq!(copy_range(text, 0, 5), text.to_vec());
}

#[test]
fn comparisons_agree_with_the_standard_library_test() {
    let samples =
        ["", "a", "A", "ab", "abc", "abd", "b", "é", "e", "z", "\u{10000}", "\u{ffff}", "a\u{0}"];
    for a in samples {
        for b in samples {
            assert_eq!(bytes_lt(a.as_bytes(), b.as_bytes()), a < b, "{:?} < {:?}", a, b);
            assert_eq!(bytes_eq(a.as_bytes(), b.as_bytes()), a == b);
            assert_eq!(str_eq(a, b), a == b);
        }
    }
}

#[test]
fn numbers_agree_with_the_standard_library_test() {
    for n in [0u64, 1, 9, 10, 11, 99, 100, 8000, 1048576, u64::MAX - 1, u64::MAX] {
        assert_eq!(decimal_string(n), n.to_string());
        assert_eq!(parse_number_bytes(n.to_string().as_bytes()), Some(n));
        assert_eq!(parse_number_bytes(format!("+{:030}", n).as_bytes()), Some(n));
    }
    let samples = [
        "", "+", "-", "-0", "+0", "0", "00", "12", "1 2", " 12", "12 ", "1_000", "0x10", "१२",
        "18446744073709551615", "18446744073709551616", "99999999999999999999", "++1", "+-1",
    ];
    for sample in samples {
        assert_eq!(parse_number_bytes(sample.as_bytes()), sample.parse::<u64>().ok(), "{:?}", sample);
    }
}

#[test]
fn strings_and_characters_test() {
    for sample in SAMPLES {
        assert_eq!(string_of(sample.as_bytes()), sample);
    }
    assert_eq!(string_of(&[0xe9, 0x41]), "éA");
    for sample in ["", "plain", "répertoire spécial", "\u{10348}x"] {
        let chars = chars_vec(sample);
        assert_eq!(chars, sample.chars().collect::<Vec<char>>());
        assert_eq!(string_from_chars(&chars), sample);
    }
}
