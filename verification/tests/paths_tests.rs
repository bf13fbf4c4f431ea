use rust_http_server::http_header::Mime;
use rust_http_server::paths::extension_of;
use rust_http_server::paths::file_name_of;
use rust_http_server::paths::is_under;
use rust_http_server::res_builder::script_file;

#[test]
fn is_under_test() {
    assert!(is_under("/srv/test-root", "/srv/test-root"));
    assert!(is_under("/srv/test-root/lipsum.html", "/srv/test-root"));
    assert!(is_under("/srv/test-root/subdir/é.txt", "/srv/test-root"));
    assert!(is_under("/srv/test-root/", "/srv/test-root"));
    assert!(is_under("/srv/test-root/x", "/srv/test-root/"));
    assert!(is_under("/etc/passwd", "/"));
    assert!(is_under("/", "/"));
    assert!(is_under("anything", ""));
    assert!(is_under("", ""));

    assert!(!is_under("/srv/test-root2", "/srv/test-root"));
    assert!(!is_under("/srv/test-root2/x", "/srv/test-root"));
    assert!(!is_under("/srv/test-root.bak/x", "/srv/test-root"));
    assert!(!is_under("/srv/test-roo", "/srv/test-root"));
    assert!(!is_under("/srv", "/srv/test-root"));
    assert!(!is_under("/srv/README.md", "/srv/test-root"));
    assert!(!is_under("/", "/srv/test-root"));
    assert!(!is_under("", "/"));
    assert!(!is_under("srv/test-root/x", "/srv/test-root"));
    assert!(!is_under("/SRV/test-root/x", "/srv/test-root"));
    assert!(!is_under("/srv/tést-root/x", "/srv/test-root"));
}

#[test]
fn is_under_agrees_with_the_standard_library_on_canonical_paths_test() {
    let paths = [
        "/", "/a", "/a/b", "/a/b/c.txt", "/ab", "/ab/c", "/a.b", "/a/bc", "/b", "/é", "/é/a",
    ];
    for path in paths {
        for root in paths {
            assert_eq!(
                is_under(path, root),
                std::path::Path::new(path).starts_with(root),
                "{} under {}",
                path,
                root
            );
        }
    }
}

#[test]
fn file_name_test() {
    assert_eq!(file_name_of("/srv/www/index.php"), "index.php");
    assert_eq!(file_name_of("index.php"), "index.php");
    assert_eq!(file_name_of("/srv/www/"), "");
    assert_eq!(file_name_of("/"), "");
    assert_eq!(file_name_of(""), "");
    assert_eq!(file_name_of("/srv/é/à.txt"), "à.txt");
    assert_eq!(script_file("/srv/www/index.php"), Some(String::from("index.php")));
    assert_eq!(script_file("/srv/www/..."), Some(String::from("...")));
    assert_eq!(script_file("/srv/www/.."), None);
    assert_eq!(script_file("/srv/www/."), None);
    assert_eq!(script_file("/srv/www/"), None);
    for path in ["/", "/a", "/a/b.php", "/a/.b", "/a/b.c.d", "/é/à.php"] {
        let by_std = std::path::Path::new(path)
            .file_name()
            .map(|n| n.to_str().unwrap().to_string());
        assert_eq!(script_file(path), by_std);
    }
}

#[test]
fn extension_test() {
    assert_eq!(extension_of("/srv/www/lipsum.html"), "html");
    assert_eq!(extension_of("/srv/www/archive.tar.gz"), "gz");
    assert_eq!(extension_of("/srv/www.d/readme"), "");
    assert_eq!(extension_of("/srv/www/.bashrc"), "");
    assert_eq!(extension_of("/srv/www/.bashrc.bak"), "bak");
    assert_eq!(extension_of("/srv/www/name."), "");
    assert_eq!(extension_of("/srv/www/.."), "");
    assert_eq!(extension_of("/srv/www/a.é"), "é");
    assert_eq!(extension_of(""), "");
    for path in ["/", "/a", "/a/b.php", "/a/.b", "/a/b.c.d", "/a.b/c", "/a/b.", "/a/..b"] {
        let by_std = std::path::Path::new(path)
            .extension()
            .map(|n| n.to_str().unwrap().to_string())
            .unwrap_or_default();
        assert_eq!(extension_of(path), by_std, "{}", path);
    }
    assert_eq!(Mime::guess("/srv/www/archive.tar.gz").essence_str(), "application/gzip");
    assert_eq!(Mime::guess("/srv/www/.html"), Mime::new("application", "octet-stream"));
    assert_eq!(Mime::guess("/srv/www.html/readme"), Mime::new("application", "octet-stream"));
    assert_eq!(Mime::guess("/srv/www/drawing.svg").essence_str(), "image/svg+xml");
}
