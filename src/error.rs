//! The errors that the client reports.

use vstd::prelude::*;
use crate::text::{chars_of, decimal_text, push_decimal, push_str, string_of};

verus! {

/// Why a download gave up.
#[derive(Debug, Clone, PartialEq, Eq, Structural)]
pub enum DownloadFailure {
    /// The server answered with a status that is neither a success nor a redirect.
    BadStatus(usize),
    /// The chain of redirects was longer than the client follows.
    TooManyRedirects,
    /// A redirect came without a `Location` header to follow.
    MissingLocation,
    /// A segment was answered twice with a status other than 206.
    SegmentRejected(usize),
}

/// The errors of the client.
#[derive(Debug, Clone, PartialEq)]
pub enum Error {
    /// The URL is malformed, its port is not a valid number, or its authority is missing.
    UrlParsingError,
    /// Connecting, reading, writing or a local file operation failed.
    IoError(String),
    /// The status line or a header line is not valid UTF-8.
    Utf8ParsingError,
    /// The status line lacks a field, or a header line lacks its `:`.
    HeaderParsingError,
    /// The server's answers do not allow the download to complete.
    DownloadError(DownloadFailure),
}

/// The text that describes a download failure.
pub open spec fn failure_text(f: DownloadFailure) -> Seq<char> {
    match f {
        DownloadFailure::BadStatus(s) => "unexpected status "@ + decimal_text(s as nat),
        DownloadFailure::TooManyRedirects => "too many redirects"@,
        DownloadFailure::MissingLocation => "redirect without a Location header"@,
        DownloadFailure::SegmentRejected(s) => "segment rejected with status "@ + decimal_text(
            s as nat,
        ),
    }
}

/// The one-line description of an error.
pub open spec fn error_text(e: Error) -> Seq<char> {
    match e {
        Error::UrlParsingError => "An error occurred on parsing the URL!"@,
        Error::IoError(m) => "An error occurred on IO operation: "@ + m@,
        Error::Utf8ParsingError => "An error occurred on parsing response!"@,
        Error::HeaderParsingError => "An error occurred on parsing headers of the response!"@,
        Error::DownloadError(f) => "An error occurred on downloading: "@ + failure_text(f),
    }
}

impl Error {
    /// A one-line, human-readable description of the error.
    pub fn message(&self) -> (r: String)
        ensures
            r@ == error_text(*self),
    {
        match self {
            Error::UrlParsingError => String::from_str("An error occurred on parsing the URL!"),
            Error::IoError(m) => {
                let mut v = chars_of("An error occurred on IO operation: ");
                push_str(&mut v, m.as_str());
                string_of(v.as_slice())
            },
            Error::Utf8ParsingError => String::from_str("An error occurred on parsing response!"),
            Error::HeaderParsingError => String::from_str(
                "An error occurred on parsing headers of the response!",
            ),
            Error::DownloadError(f) => {
                let mut v = chars_of("An error occurred on downloading: ");
                match f {
                    DownloadFailure::BadStatus(s) => {
                        push_str(&mut v, "unexpected status ");
                        push_decimal(&mut v, *s);
                    },
                    DownloadFailure::TooManyRedirects => {
                        push_str(&mut v, "too many redirects");
                    },
                    DownloadFailure::MissingLocation => {
                        push_str(&mut v, "redirect without a Location header");
                    },
                    DownloadFailure::SegmentRejected(s) => {
                        push_str(&mut v, "segment rejected with status ");
                        push_decimal(&mut v, *s);
                    },
                }
                assert(v@ == "An error occurred on downloading: "@ + failure_text(*f));
                string_of(v.as_slice())
            },
        }
    }
}

} // verus!
