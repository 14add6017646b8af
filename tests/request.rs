use httpclient::method::Method;
use httpclient::request::Request;
use httpclient::url::ParsedUrl;

fn text(bytes: &[u8]) -> String {
    String::from_utf8(bytes.to_vec()).unwrap()
}

#[test]
fn encodes_a_plain_get() {
    let url = ParsedUrl::from("a.org/x/y.bin").unwrap();
    let bytes = Request::new().encode(&url);
    assert_eq!(
        text(&bytes),
        "GET /x/y.bin HTTP/1.1\r\nHOST: a.org\r\nConnection: Close\r\n\r\n\r\n\r\n"
    );
}

#[test]
fn encodes_a_head_with_headers_query_and_range() {
    let url = ParsedUrl::from("https://a.org/f").unwrap();
    let req = Request::new()
        .set_method(Method::HEAD)
        .set_headers(vec![("Accept".to_string(), "*/*".to_string())])
        .add_query_string("k", "v")
        .add_query_string("n", 5)
        .set_range(500000..999999);
    assert_eq!(
        text(&req.encode(&url)),
        "HEAD /f?k=v&n=5 HTTP/1.1\r\nHOST: a.org\r\nAccept: */*\r\nRange: bytes=500000-999999\r\nConnection: Close\r\n\r\n\r\n\r\n"
    );
}

#[test]
fn encodes_a_body_with_its_length() {
    let url = ParsedUrl::from("a.org").unwrap();
    let req = Request::new().set_method(Method::POST).form_data().add_form_data("a", 1).add_form_data("b", "x y");
    assert_eq!(req.get_body().as_ref().unwrap().as_slice(), b"a=1&b=x y");
    assert_eq!(req.get_content_length(), 9);
    assert_eq!(
        text(&req.encode(&url)),
        "POST / HTTP/1.1\r\nHOST: a.org\r\nContent-Type: application/x-www-form-urlencoded\r\nContent-Length: 9\r\nConnection: Close\r\n\r\na=1&b=x y\r\n\r\n"
    );
}

#[test]
fn headers_compare_names_without_case() {
    let req = Request::new()
        .set_headers(vec![
            ("content-type".to_string(), "text/plain".to_string()),
            ("X-One".to_string(), "1".to_string()),
            ("x-one".to_string(), "2".to_string()),
        ])
        .form_data();
    let hs = req.get_headers();
    assert_eq!(hs.len(), 2);
    assert_eq!(hs[0], ("content-type".to_string(), "application/x-www-form-urlencoded".to_string()));
    assert_eq!(hs[1], ("X-One".to_string(), "2".to_string()));
}

#[test]
fn builder_getters() {
    let req = Request::new();
    assert!(matches!(req.get_method(), Method::GET));
    assert!(req.get_headers().is_empty());
    assert!(req.get_query_strings().is_empty());
    assert!(req.get_range().is_none());
    assert!(req.get_body().is_none());
    assert_eq!(req.get_content_length(), 0);
    let req = req.set_range(3..9);
    assert_eq!(req.get_range().clone(), Some(3..9));
}

#[test]
fn multipart_body() {
    let req = Request::new().multipart().add_data("name", "Ann").add_file("doc", "a.txt", b"hi".to_vec());
    assert_eq!(
        req.get_headers()[0].1,
        "multipart/form-data; boundary=\"X_HTTPCLIENT_BOUNDARY\""
    );
    assert_eq!(
        text(req.get_body().as_ref().unwrap()),
        "--X_HTTPCLIENT_BOUNDARY\r\nContent-Disposition: form-data; name=\"name\"\r\n\r\nAnn\r\n--X_HTTPCLIENT_BOUNDARY\r\nContent-Disposition: form-data; name=\"doc\"; filename=\"a.txt\"\r\n\r\nhi\r\n--X_HTTPCLIENT_BOUNDARY\r\n"
    );
}

#[test]
fn multipart_file_as_first_part() {
    let req = Request::new().add_file("doc", "a.txt", vec![1, 2]);
    let mut expected = b"--X_HTTPCLIENT_BOUNDARY\r\nContent-Disposition: form-data; name=\"doc\"; filename=\"a.txt\"\r\n\r\n".to_vec();
    expected.extend_from_slice(&[1, 2]);
    expected.extend_from_slice(b"\r\n--X_HTTPCLIENT_BOUNDARY\r\n");
    assert_eq!(req.get_body().as_ref().unwrap(), &expected);
}

#[test]
fn method_tokens() {
    assert_eq!(Method::GET.as_str(), "GET");
    assert_eq!(Method::DELETE.as_str(), "DELETE");
    assert_eq!(Method::OPTIONS.as_str(), "OPTIONS");
}
