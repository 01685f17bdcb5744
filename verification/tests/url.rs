use zipsurf::url::{read_response, Url};

#[test]
fn url_with_a_path() {
    let u = Url::new("http://example.org/a/b.html").unwrap();
    assert_eq!(u.scheme, "http");
    assert_eq!(u.host, "example.org");
    assert_eq!(u.path, "/a/b.html");
}

#[test]
fn url_without_a_path_gets_the_root() {
    let u = Url::new("http://example.org").unwrap();
    assert_eq!(u.host, "example.org");
    assert_eq!(u.path, "/");
    let u = Url::new("http://example.org/").unwrap();
    assert_eq!(u.host, "example.org");
    assert_eq!(u.path, "/");
}

#[test]
fn url_splits_at_the_first_separator() {
    let u = Url::new("http://a/b://c").unwrap();
    assert_eq!(u.host, "a");
    assert_eq!(u.path, "/b://c");
}

#[test]
fn url_without_a_separator_is_refused() {
    assert_eq!(Url::new("example.org").unwrap_err(), "URL missing :// separator");
    assert_eq!(Url::new("").unwrap_err(), "URL missing :// separator");
    assert_eq!(Url::new("http:/x").unwrap_err(), "URL missing :// separator");
}

#[test]
fn url_with_another_scheme_is_refused() {
    assert_eq!(Url::new("https://example.org/").unwrap_err(), "Unsupported URL scheme: https");
    assert_eq!(Url::new("://x").unwrap_err(), "Unsupported URL scheme: ");
    assert_eq!(Url::new("HTTP://x").unwrap_err(), "Unsupported URL scheme: HTTP");
}

#[test]
fn request_names_path_and_host() {
    let u = Url::new("http://example.org/index.html").unwrap();
    assert_eq!(u.request_text(), "GET /index.html HTTP/1.0\r\nHost: example.org\r\n\r\n");
    assert_eq!(u.address(), "example.org:80");
    let copy = u.clone();
    assert_eq!(copy.path, "/index.html");
}

#[test]
fn response_body_follows_the_blank_line() {
    let raw = "HTTP/1.0 200 OK\r\nContent-Type: text/html\r\nX: y\r\n\r\n<p>hi</p>\r\n\r\nmore";
    assert_eq!(read_response(raw).unwrap(), "<p>hi</p>\r\n\r\nmore");
}

#[test]
fn response_without_a_body() {
    assert_eq!(read_response("HTTP/1.0 200 OK\r\n\r\n").unwrap(), "");
    assert_eq!(read_response("HTTP/1.0 200 OK\r\nA: b\r\n").unwrap(), "");
    assert_eq!(read_response("HTTP/1.0 200 OK").unwrap(), "");
}

#[test]
fn response_with_a_short_status_line_is_refused() {
    assert_eq!(read_response("HTTP/1.0\r\n\r\nbody").unwrap_err(), "Malformed HTTP response");
    assert_eq!(read_response("").unwrap_err(), "Malformed HTTP response");
    assert_eq!(read_response("HTTP/1.0 200\r\nA: b c d\r\n\r\n").unwrap_err(), "Malformed HTTP response");
}

#[test]
fn response_with_an_encoding_is_refused() {
    let raw = "HTTP/1.0 200 OK\r\nTransfer-Encoding: chunked\r\n\r\nbody";
    assert_eq!(read_response(raw).unwrap_err(), "Unsupported transfer or content encoding");
    let raw = "HTTP/1.0 200 OK\r\nA: b\r\nCONTENT-ENCODING: gzip\r\nC: d\r\n\r\nbody";
    assert_eq!(read_response(raw).unwrap_err(), "Unsupported transfer or content encoding");
    // the name of the header is what counts
    let raw = "HTTP/1.0 200 OK\r\nX: content-encoding\r\n\r\nbody";
    assert_eq!(read_response(raw).unwrap(), "body");
}

fn page() -> Url {
    Url::new("http://example.org/a/b/page.html").unwrap()
}

fn shown(u: &Url) -> String {
    format!("{}://{}{}", u.scheme, u.host, u.path)
}

#[test]
fn resolve_a_full_address() {
    assert_eq!(shown(&page().resolve("http://other.org/x").unwrap()), "http://other.org/x");
    assert_eq!(page().resolve("ftp://other.org/x").unwrap_err(), "Unsupported URL scheme: ftp");
}

#[test]
fn resolve_from_the_scheme_and_from_the_host() {
    assert_eq!(shown(&page().resolve("//other.org/x/y").unwrap()), "http://other.org/x/y");
    assert_eq!(shown(&page().resolve("//other.org").unwrap()), "http://other.org/");
    assert_eq!(shown(&page().resolve("/x/y.css").unwrap()), "http://example.org/x/y.css");
    assert_eq!(shown(&page().resolve("/").unwrap()), "http://example.org/");
}

#[test]
fn resolve_beside_the_page() {
    assert_eq!(shown(&page().resolve("s.css").unwrap()), "http://example.org/a/b/s.css");
    assert_eq!(shown(&page().resolve("c/s.css").unwrap()), "http://example.org/a/b/c/s.css");
    assert_eq!(shown(&page().resolve("./s.css").unwrap()), "http://example.org/a/b/s.css");
    assert_eq!(shown(&page().resolve("../s.css").unwrap()), "http://example.org/a/s.css");
    assert_eq!(shown(&page().resolve(".././../s.css").unwrap()), "http://example.org/s.css");
    assert_eq!(shown(&page().resolve("../../../../s.css").unwrap()), "http://example.org/s.css");
    assert_eq!(shown(&page().resolve("").unwrap()), "http://example.org/a/b/");
    // only the start of a reference is read as a way up
    assert_eq!(shown(&page().resolve("c/../s.css").unwrap()), "http://example.org/a/b/c/../s.css");
    let root = Url::new("http://example.org").unwrap();
    assert_eq!(shown(&root.resolve("s.css").unwrap()), "http://example.org/s.css");
    assert_eq!(shown(&root.resolve("../s.css").unwrap()), "http://example.org/s.css");
}
