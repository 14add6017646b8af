use httpclient::error::Error;
use httpclient::url::ParsedUrl;
use httpclient::url_parser::UrlParser;

fn check(input: &str, scheme: &str, host: &str, port: usize) {
    let u = ParsedUrl::from(input).unwrap();
    assert_eq!(u.scheme, scheme, "{}", input);
    assert_eq!(u.host, host, "{}", input);
    assert_eq!(u.port, port, "{}", input);
    assert_eq!(u.path, "/", "{}", input);
    assert_eq!(u.file, None, "{}", input);
}

#[test]
fn scheme_defaults_and_port_overrides() {
    let cases: Vec<(&str, Option<usize>, &str)> = vec![
        ("x.com", None, "x.com"),
        ("x.com:8080", Some(8080), "x.com"),
        ("1.2.3.4", None, "1.2.3.4"),
        ("1.2.3.4:9", Some(9), "1.2.3.4"),
    ];
    for (authority, port, host) in cases {
        check(authority, "http", host, port.unwrap_or(80));
        check(&format!("http://{}", authority), "http", host, port.unwrap_or(80));
        check(&format!("https://{}", authority), "https", host, port.unwrap_or(443));
    }
}

#[test]
fn path_and_file() {
    let u = ParsedUrl::from("https://a.org/x/y.pdf").unwrap();
    assert_eq!(u.path, "/x/y.pdf");
    assert_eq!(u.file, Some("y.pdf".to_string()));
    let u = ParsedUrl::from("https://a.org/dir.v2/page").unwrap();
    assert_eq!(u.file, Some("dir.v2".to_string()));
    let u = ParsedUrl::from("a.org/x/").unwrap();
    assert_eq!(u.path, "/x/");
    assert_eq!(u.file, None);
}

#[test]
fn query_kept_in_path_but_not_in_file() {
    let u = ParsedUrl::from("https://a.org/files/Report.pdf?some=one&hello=world").unwrap();
    assert_eq!(u.path, "/files/Report.pdf?some=one&hello=world");
    assert_eq!(u.file, Some("Report.pdf".to_string()));
    let u = ParsedUrl::from("https://a.org/page?v=1.2").unwrap();
    assert_eq!(u.file, None);
}

#[test]
fn malformed_urls_are_refused() {
    assert_eq!(ParsedUrl::from("x.com:abc"), Err(Error::UrlParsingError));
    assert_eq!(ParsedUrl::from("x.com:0"), Err(Error::UrlParsingError));
    assert_eq!(ParsedUrl::from("x.com:70000"), Err(Error::UrlParsingError));
    assert_eq!(ParsedUrl::from("x.com:"), Err(Error::UrlParsingError));
    assert_eq!(ParsedUrl::from("http:///path"), Err(Error::UrlParsingError));
    assert_eq!(ParsedUrl::from("httpbin.org"), Err(Error::UrlParsingError));
    assert_eq!(ParsedUrl::from("httpx://a.org"), Err(Error::UrlParsingError));
}

#[test]
fn parser_keeps_the_authority_whole() {
    let u = UrlParser::from("https://a.org:8443/p/q").unwrap();
    assert_eq!(u.scheme, "https");
    assert_eq!(u.host, "a.org:8443");
    assert_eq!(u.path, "/p/q");
    assert_eq!(UrlParser::from("httpbin.org"), Err(Error::UrlParsingError));
}
