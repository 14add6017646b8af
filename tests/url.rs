use httpclient::url::ParsedUrl;
use httpclient::url_parser::UrlParser;

#[test]
fn url_test1_works() {
    let url = "https://benyaamin.com";
    let result = ParsedUrl::from(url).unwrap();

    let expected = ParsedUrl {
        scheme: "https".to_owned(),
        host: "benyaamin.com".to_owned(),
        port: 443,
        path: "/".to_owned(),
        file: None,
    };

    assert_eq!(result, expected)
}

#[test]
fn url_test2_works() {
    let url = "benyaamin.com";
    let result = ParsedUrl::from(url).unwrap();

    let expected = ParsedUrl {
        scheme: "http".to_owned(),
        host: "benyaamin.com".to_owned(),
        port: 80,
        path: "/".to_owned(),
        file: None,
    };

    assert_eq!(result, expected)
}

#[test]
fn url_test3_not_works() {
    let url = "benyaamin.com";
    let result = ParsedUrl::from(url).unwrap();

    let expected = ParsedUrl {
        scheme: "".to_owned(),
        host: "benyaamin.com".to_owned(),
        port: 80,
        path: "/".to_owned(),
        file: None,
    };

    assert_ne!(result, expected)
}

#[test]
fn test4_works() {
    let url = "168.119.172.64";
    let result = ParsedUrl::from(url).unwrap();

    let expected = ParsedUrl {
        scheme: "http".to_owned(),
        host: "168.119.172.64".to_owned(),
        port: 80,
        path: "/".to_owned(),
        file: None,
    };

    assert_eq!(result, expected)
}

#[test]
fn test5_works() {
    let url = "168.119.172.64:5481";
    let result = ParsedUrl::from(url).unwrap();

    let expected = ParsedUrl {
        scheme: "http".to_owned(),
        host: "168.119.172.64".to_owned(),
        port: 5481,
        path: "/".to_owned(),
        file: None,
    };

    assert_eq!(result, expected)
}

#[test]
fn test6_works() {
    let url = "168.119.172.64/Documents.rar";
    let result = ParsedUrl::from(url).unwrap();

    let expected = ParsedUrl {
        scheme: "http".to_owned(),
        host: "168.119.172.64".to_owned(),
        port: 80,
        path: "/Documents.rar".to_owned(),
        file: Some("Documents.rar".to_string()),
    };

    assert_eq!(result, expected)
}

#[test]
fn url_parser_test1_works() {
    let url = "https://benyaamin.com";
    let result = UrlParser::from(url).unwrap();

    let expected = UrlParser {
        scheme: "https".to_owned(),
        host: "benyaamin.com".to_owned(),
        path: "/".to_owned(),
    };

    assert_eq!(result, expected)
}

#[test]
fn url_parser_test2_works() {
    let url = "benyaamin.com";
    let result = UrlParser::from(url).unwrap();

    let expected = UrlParser {
        scheme: "http".to_owned(),
        host: "benyaamin.com".to_owned(),
        path: "/".to_owned(),
    };

    assert_eq!(result, expected)
}

#[test]
fn url_parser_test3_not_works() {
    let url = "benyaamin.com";
    let result = UrlParser::from(url).unwrap();

    let expected = UrlParser {
        scheme: "".to_owned(),
        host: "benyaamin.com".to_owned(),
        path: "/".to_owned(),
    };

    assert_ne!(result, expected)
}
