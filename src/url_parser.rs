//! A lighter URL split: scheme, authority and path, with no port handling.

use vstd::prelude::*;
use crate::error::Error;
use crate::text::{chars_of, find_char_from, find_from, lemma_find_from_bounds, string_range};
use crate::url::{add_scheme, copy_range, find_sep, find_sep_from, path_of, with_scheme};

verus! {

/// A URL split into scheme, authority and path.
#[derive(Debug, Clone, PartialEq)]
pub struct UrlParser {
    pub scheme: String,
    /// The whole authority, port included.
    pub host: String,
    pub path: String,
}

/// What splitting `s` gives as (scheme, authority, path), or `None` when it
/// holds no `://` once the default scheme is added.
pub open spec fn split_url(s: Seq<char>) -> Option<(Seq<char>, Seq<char>, Seq<char>)> {
    let a = with_scheme(s);
    let k = find_sep_from(a, 0);
    let rest = a.subrange(k + 3, a.len() as int);
    let h = find_from(rest, '/', 0);
    if k >= a.len() {
        None
    } else {
        Some(
            (
                a.subrange(0, k),
                rest.subrange(0, h),
                path_of(rest.subrange(h, rest.len() as int)),
            ),
        )
    }
}

impl UrlParser {
    /// Splits `url` into scheme, authority and path; `http` is assumed when
    /// the URL does not start with it, and the path is `/` when absent.
    pub fn from(url: &str) -> (r: Result<UrlParser, Error>)
        ensures
            match split_url(url@) {
                Some(parts) => r is Ok && r->Ok_0.scheme@ == parts.0 && r->Ok_0.host@ == parts.1
                    && r->Ok_0.path@ == parts.2,
                None => r == Err::<UrlParser, Error>(Error::UrlParsingError),
            },
    {
        let a = add_scheme(chars_of(url));
        let k = find_sep(a.as_slice());
        if k >= a.len() {
            return Err(Error::UrlParsingError);
        }
        let rest = copy_range(a.as_slice(), k + 3, a.len());
        let h = find_char_from(rest.as_slice(), '/', 0);
        proof {
            lemma_find_from_bounds(rest@, '/', 0);
        }
        let scheme = string_range(a.as_slice(), 0, k);
        let host = string_range(rest.as_slice(), 0, h);
        let path = if h == rest.len() {
            string_range(&['/'], 0, 1)
        } else {
            string_range(rest.as_slice(), h, rest.len())
        };
        Ok(UrlParser { scheme, host, path })
    }
}

} // verus!
