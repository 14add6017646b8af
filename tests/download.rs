use httpclient::download::{check_success, choose_file_name, name_from_bytes, name_in_disposition, content_length, pick_file_name, probe, Probe, MAX_REDIRECTS, NAME_LEN};
use httpclient::error::{DownloadFailure, Error};
use httpclient::response::Response;
use httpclient::url::ParsedUrl;

fn answer(status: usize, headers: &[(&str, &str)]) -> Response {
    Response {
        version: "HTTP/1.1".to_string(),
        status_code: status,
        status_name: "X".to_string(),
        headers: headers.iter().map(|(k, v)| (k.to_string(), v.to_string())).collect(),
        body: None,
    }
}

#[test]
fn file_name_from_the_url_first() {
    let f = Some("a.pdf".to_string());
    let d = " attachment; filename=\"b.pdf\"".to_string();
    assert_eq!(pick_file_name(&f, Some(&d), "tok"), "a.pdf");
}

#[test]
fn file_name_from_content_disposition() {
    let quoted = " attachment; filename=\"x.zip\"".to_string();
    let bare = "attachment; filename=x.zip ".to_string();
    assert_eq!(pick_file_name(&None, Some(&quoted), "tok"), "x.zip");
    assert_eq!(pick_file_name(&None, Some(&bare), "tok"), "x.zip");
    let none = "inline".to_string();
    assert_eq!(pick_file_name(&None, Some(&none), "tok"), "tok");
    assert_eq!(pick_file_name(&None, None, "tok"), "tok");
}

#[test]
fn random_file_name_when_nothing_names_it() {
    let url = ParsedUrl::from("a.org/download").unwrap();
    let name = choose_file_name(&url, &answer(200, &[]));
    assert_eq!(name.chars().count(), NAME_LEN);
    assert!(name.chars().all(|c| c.is_ascii_alphanumeric()));
    let head = answer(200, &[("content-disposition", " attachment; filename=\"r.iso\"")]);
    assert_eq!(choose_file_name(&url, &head), "r.iso");
}

#[test]
fn content_length_header() {
    assert_eq!(content_length(&answer(200, &[("Content-Length", " 1700000")])), 1_700_000);
    assert_eq!(content_length(&answer(200, &[("content-length", "42 ")])), 42);
    assert_eq!(content_length(&answer(200, &[("Content-Length", " abc")])), 0);
    assert_eq!(content_length(&answer(200, &[])), 0);
}

#[test]
fn probe_decisions() {
    assert!(matches!(probe(&answer(200, &[]), 0), Ok(Probe::Ready)));
    match probe(&answer(302, &[("Location", " https://c.org/f.bin")]), 1) {
        Ok(Probe::Follow(u)) => {
            assert_eq!(u.scheme, "https");
            assert_eq!(u.host, "c.org");
            assert_eq!(u.port, 443);
            assert_eq!(u.file, Some("f.bin".to_string()));
        },
        _ => panic!("expected a redirect"),
    }
    assert!(matches!(
        probe(&answer(301, &[("Location", "b.org")]), MAX_REDIRECTS),
        Err(Error::DownloadError(DownloadFailure::TooManyRedirects))
    ));
    assert!(matches!(
        probe(&answer(307, &[]), 0),
        Err(Error::DownloadError(DownloadFailure::MissingLocation))
    ));
    assert!(matches!(
        probe(&answer(404, &[]), 0),
        Err(Error::DownloadError(DownloadFailure::BadStatus(404)))
    ));
}

#[test]
fn redirect_chain_within_and_beyond_the_bound() {
    let follow = |hops: usize| -> Result<usize, Error> {
        let mut h = 0;
        loop {
            let head = if h < hops { answer(302, &[("Location", "next.org/f.bin")]) } else { answer(200, &[]) };
            match probe(&head, h)? {
                Probe::Follow(_) => h += 1,
                Probe::Ready => return Ok(h),
            }
        }
    };
    assert_eq!(follow(2).unwrap(), 2);
    assert_eq!(follow(MAX_REDIRECTS).unwrap(), MAX_REDIRECTS);
    assert!(matches!(
        follow(MAX_REDIRECTS + 1),
        Err(Error::DownloadError(DownloadFailure::TooManyRedirects))
    ));
}

#[test]
fn error_messages() {
    assert_eq!(Error::UrlParsingError.message(), "An error occurred on parsing the URL!");
    assert_eq!(Error::IoError("boom".to_string()).message(), "An error occurred on IO operation: boom");
    assert_eq!(
        Error::DownloadError(DownloadFailure::BadStatus(404)).message(),
        "An error occurred on downloading: unexpected status 404"
    );
    assert_eq!(
        Error::DownloadError(DownloadFailure::SegmentRejected(200)).message(),
        "An error occurred on downloading: segment rejected with status 200"
    );
}

#[test]
fn only_success_bodies_are_written() {
    assert!(check_success(200).is_ok());
    assert!(check_success(204).is_ok());
    assert!(matches!(
        check_success(500),
        Err(Error::DownloadError(DownloadFailure::BadStatus(500)))
    ));
    assert!(matches!(
        check_success(302),
        Err(Error::DownloadError(DownloadFailure::BadStatus(302)))
    ));
}

#[test]
fn file_name_parameter_among_others() {
    assert_eq!(name_in_disposition("attachment; filename=x;a=b"), Some("x".to_string()));
    assert_eq!(
        name_in_disposition("attachment; filename=\"x.zip\"; size=3"),
        Some("x.zip".to_string())
    );
    assert_eq!(name_in_disposition("inline; a=b"), None);
    assert_eq!(name_in_disposition("attachment; filename=\"\""), None);
    let d = "attachment; filename=r.iso; creation-date=x".to_string();
    assert_eq!(pick_file_name(&None, Some(&d), "tok"), "r.iso");
}

#[test]
fn name_from_drawn_bytes() {
    assert_eq!(name_from_bytes(b"aZ09xY"), "aZ09xY");
    assert_eq!(name_from_bytes(b""), "");
}

#[test]
fn quoted_file_name_keeps_semicolons_and_blanks() {
    assert_eq!(name_in_disposition("attachment; filename=\"a;b\""), Some("a;b".to_string()));
    assert_eq!(
        name_in_disposition("attachment; filename= \"my file=1.txt\"; size=9"),
        Some("my file=1.txt".to_string())
    );
    assert_eq!(name_in_disposition("attachment; filename=\"open"), Some("open".to_string()));
}

#[test]
fn file_name_parameter_must_start_a_parameter() {
    assert_eq!(
        name_in_disposition("attachment; myfilename=foo; filename=\"x\""),
        Some("x".to_string())
    );
    assert_eq!(name_in_disposition("filename=top.bin"), Some("top.bin".to_string()));
    assert_eq!(name_in_disposition("attachment;myfilename=foo"), None);
}

#[test]
fn name_from_any_bytes() {
    assert_eq!(name_from_bytes(b"a-b."), "a-b.");
}
