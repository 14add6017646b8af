//! Decomposing a URL into scheme, host, port, path and file name.

use vstd::prelude::*;
use crate::error::Error;
use crate::text::{
    chars_of, decimal_text, find_char_from, find_from, has_char, is_decimal, decimal_value,
    lemma_decimal_text, lemma_find_from_is, lemma_find_from_bounds,
    lemma_rfind_before_bounds, parse_decimal, push_range, rfind_before, rfind_char_before,
    string_range,
};

verus! {

/// The parts of a URL, as the parser reads them.
pub struct UrlParts {
    pub scheme: Seq<char>,
    pub host: Seq<char>,
    pub port: nat,
    pub path: Seq<char>,
    pub file: Option<Seq<char>>,
}

/// A URL, decomposed.
#[derive(Debug, Clone, PartialEq)]
pub struct ParsedUrl {
    /// `http` or `https`.
    pub scheme: String,
    /// The host name or address, never empty.
    pub host: String,
    /// The explicit port, or the scheme's default.
    pub port: usize,
    /// Everything after the authority (query included), or `/`.
    pub path: String,
    /// The last path segment that holds a `.`, looked for before any query.
    pub file: Option<String>,
}

pub open spec fn opt_chars(o: Option<String>) -> Option<Seq<char>> {
    match o {
        Some(s) => Some(s@),
        None => None,
    }
}

impl View for ParsedUrl {
    type V = UrlParts;

    open spec fn view(&self) -> UrlParts {
        UrlParts {
            scheme: self.scheme@,
            host: self.host@,
            port: self.port as nat,
            path: self.path@,
            file: opt_chars(self.file),
        }
    }
}

pub open spec fn http_word() -> Seq<char> {
    seq!['h', 't', 't', 'p']
}

pub open spec fn https_word() -> Seq<char> {
    seq!['h', 't', 't', 'p', 's']
}

/// Whether `s` starts with `http` (and so also when it starts with `https`).
pub open spec fn starts_with_http(s: Seq<char>) -> bool {
    s.len() >= 4 && s.take(4) == http_word()
}

/// The URL with `http://` put in front when it does not start with `http`.
pub open spec fn with_scheme(s: Seq<char>) -> Seq<char> {
    if starts_with_http(s) {
        s
    } else {
        seq!['h', 't', 't', 'p', ':', '/', '/'] + s
    }
}

/// Whether `s` holds `://` at `i`.
pub open spec fn sep_at(s: Seq<char>, i: int) -> bool {
    0 <= i && i + 3 <= s.len() && s[i] == ':' && s[i + 1] == '/' && s[i + 2] == '/'
}

/// The first index at or after `i` where `s` holds `://`, or `s.len()`.
pub open spec fn find_sep_from(s: Seq<char>, i: int) -> int
    decreases s.len() - i,
{
    if i < 0 || i + 3 > s.len() {
        s.len() as int
    } else if sep_at(s, i) {
        i
    } else {
        find_sep_from(s, i + 1)
    }
}

/// The port a scheme uses when the URL names none.
pub open spec fn default_port(scheme: Seq<char>) -> nat {
    if scheme == https_word() {
        443
    } else {
        80
    }
}

/// The segment of `q` that holds its last `.`, if `q` holds one.
pub open spec fn file_of(q: Seq<char>) -> Option<Seq<char>> {
    let d = rfind_before(q, '.', q.len() as int);
    if d < 0 {
        None
    } else {
        Some(q.subrange(rfind_before(q, '/', d) + 1, find_from(q, '/', d)))
    }
}

/// The path after the authority: `/` when there is none.
pub open spec fn path_of(tail: Seq<char>) -> Seq<char> {
    if tail.len() == 0 {
        seq!['/']
    } else {
        tail
    }
}

/// What parsing the URL `s` gives, or `None` where it is refused.
pub open spec fn parse_url(s: Seq<char>) -> Option<UrlParts> {
    let a = with_scheme(s);
    let k = find_sep_from(a, 0);
    let scheme = a.subrange(0, k);
    let rest = a.subrange(k + 3, a.len() as int);
    let h = find_from(rest, '/', 0);
    let auth = rest.subrange(0, h);
    let tail = rest.subrange(h, rest.len() as int);
    let c = find_from(auth, ':', 0);
    let host = auth.subrange(0, c);
    let port_text = auth.subrange(c + 1, auth.len() as int);
    let explicit = c < auth.len();
    if k >= a.len() {
        None
    } else if scheme != http_word() && scheme != https_word() {
        None
    } else if host.len() == 0 {
        None
    } else if explicit && !(is_decimal(port_text) && 1 <= decimal_value(port_text) <= 65535) {
        None
    } else {
        Some(
            UrlParts {
                scheme,
                host,
                port: if explicit {
                    decimal_value(port_text)
                } else {
                    default_port(scheme)
                },
                path: path_of(tail),
                file: file_of(tail.subrange(0, find_from(tail, '?', 0))),
            },
        )
    }
}

/// `host`, then `:` and the port's digits when a port is given.
pub open spec fn authority(host: Seq<char>, port: Option<nat>) -> Seq<char> {
    match port {
        Some(p) => host + seq![':'] + decimal_text(p),
        None => host,
    }
}

/// `scheme://` followed by the authority, or the authority alone.
pub open spec fn url_text(scheme: Option<Seq<char>>, host: Seq<char>, port: Option<nat>) -> Seq<
    char,
> {
    match scheme {
        Some(sc) => sc + seq![':', '/', '/'] + authority(host, port),
        None => authority(host, port),
    }
}

proof fn lemma_find_sep_is(s: Seq<char>, i: int, k: int)
    requires
        0 <= i <= k,
        forall|j: int| i <= j < k ==> !sep_at(s, j),
        sep_at(s, k),
    ensures
        find_sep_from(s, i) == k,
    decreases k - i,
{
    if i < k {
        lemma_find_sep_is(s, i + 1, k);
    }
}

proof fn lemma_authority_parts(host: Seq<char>, port: Option<nat>)
    requires
        host.len() > 0,
        !has_char(host, ':'),
        !has_char(host, '/'),
        !has_char(host, '?'),
    ensures
        find_from(authority(host, port), '/', 0) == authority(host, port).len(),
        find_from(authority(host, port), ':', 0) == host.len(),
        authority(host, port).subrange(0, host.len() as int) == host,
        authority(host, port).subrange(0, authority(host, port).len() as int) == authority(host, port),
        port is Some ==> authority(host, port).len() > host.len() && authority(host, port).subrange(
            host.len() + 1int,
            authority(host, port).len() as int,
        ) == decimal_text(port->Some_0),
        port is None ==> authority(host, port).len() == host.len(),
        host.len() < 4 ==> authority(host, port).len() <= host.len() || authority(host, port)[host.len() as int] == ':',
        host.len() >= 4 ==> authority(host, port).take(4) == host.take(4),
{
    let auth = authority(host, port);
    if let Some(p) = port {
        lemma_decimal_text(p);
    }
    assert forall|j: int| 0 <= j < auth.len() implies auth[j] != '/' && auth[j] != '?' && (j
        < host.len() ==> auth[j] != ':') by {
        if j < host.len() {
            assert(auth[j] == host[j]);
        } else if let Some(p) = port {
            if j > host.len() {
                assert(auth[j] == decimal_text(p)[j - host.len() - 1]);
            }
        }
    }
    lemma_find_from_is(auth, '/', 0, auth.len() as int);
    match port {
        Some(p) => {
            assert(auth[host.len() as int] == ':');
            lemma_find_from_is(auth, ':', 0, host.len() as int);
            assert(auth.subrange(host.len() + 1int, auth.len() as int) =~= decimal_text(p));
        },
        None => {
            lemma_find_from_is(auth, ':', 0, auth.len() as int);
        },
    }
    assert(auth.subrange(0, host.len() as int) =~= host);
    assert(auth.subrange(0, auth.len() as int) =~= auth);
    if host.len() >= 4 {
        assert(auth.take(4) =~= host.take(4));
    }
}

proof fn lemma_scheme_prefix(scheme: Option<Seq<char>>, host: Seq<char>, port: Option<nat>)
    requires
        host.len() > 0,
        !has_char(host, ':'),
        !has_char(host, '/'),
        !has_char(host, '?'),
        scheme is Some ==> (scheme->Some_0 == http_word() || scheme->Some_0 == https_word()),
        scheme is None ==> !starts_with_http(host),
    ensures
        with_scheme(url_text(scheme, host, port)) == match scheme {
            Some(x) => x,
            None => http_word(),
        } + seq![':', '/', '/'] + authority(host, port),
{
    let auth = authority(host, port);
    let s = url_text(scheme, host, port);
    lemma_authority_parts(host, port);
    match scheme {
        Some(x) => {
            assert(s.take(4) =~= x.take(4));
            assert(x.take(4) =~= http_word());
        },
        None => {
            assert(!starts_with_http(auth)) by {
                if auth.len() >= 4 && auth.take(4) == http_word() {
                    if host.len() < 4 {
                        let j = host.len() as int;
                        assert(auth.take(4)[j] == auth[j]);
                    }
                }
            }
            assert(with_scheme(s) =~= seq!['h', 't', 't', 'p', ':', '/', '/'] + auth);
        },
    }
}

/// For a host with no `:`, `/` or `?`, parsing `scheme://host[:port]` or
/// `host[:port]` gives the scheme written (`http` when none is), the host,
/// the explicit port or else the scheme's default (443 for `https`, 80
/// otherwise), the path `/` and no file. Without a scheme, the host must not
/// itself start with `http`, which would read as one.
pub proof fn lemma_scheme_and_port(scheme: Option<Seq<char>>, host: Seq<char>, port: Option<nat>)
    requires
        host.len() > 0,
        !has_char(host, ':'),
        !has_char(host, '/'),
        !has_char(host, '?'),
        scheme is Some ==> (scheme->Some_0 == http_word() || scheme->Some_0 == https_word()),
        scheme is None ==> !starts_with_http(host),
        port is Some ==> 1 <= port->Some_0 <= 65535,
    ensures
        ({
            let sc = match scheme {
                Some(x) => x,
                None => http_word(),
            };
            parse_url(url_text(scheme, host, port)) == Some(
                UrlParts {
                    scheme: sc,
                    host,
                    port: match port {
                        Some(p) => p,
                        None => default_port(sc),
                    },
                    path: seq!['/'],
                    file: None,
                },
            )
        }),
{
    let sc = match scheme {
        Some(x) => x,
        None => http_word(),
    };
    let auth = authority(host, port);
    lemma_authority_parts(host, port);
    lemma_scheme_prefix(scheme, host, port);
    if let Some(p) = port {
        lemma_decimal_text(p);
    }
    let a = with_scheme(url_text(scheme, host, port));
    let k = sc.len() as int;
    assert(k == 4 || k == 5);
    assert forall|j: int| 0 <= j < k implies !sep_at(a, j) by {
        assert(a[j] == sc[j]);
    }
    assert(sep_at(a, k));
    lemma_find_sep_is(a, 0, k);
    assert(a.subrange(0, k) =~= sc);
    let rest = a.subrange(k + 3, a.len() as int);
    assert(rest =~= auth);
    let tail = rest.subrange(auth.len() as int, rest.len() as int);
    assert(tail =~= Seq::<char>::empty());
    assert(find_from(tail, '?', 0) == 0);
    assert(tail.subrange(0, 0) =~= Seq::<char>::empty());
    assert(rfind_before(Seq::<char>::empty(), '.', 0) == -1);
}

/// The URL with `http://` in front when it does not start with `http`.
pub fn add_scheme(s: Vec<char>) -> (r: Vec<char>)
    ensures
        r@ == with_scheme(s@),
{
    if s.len() >= 4 && s[0] == 'h' && s[1] == 't' && s[2] == 't' && s[3] == 'p' {
        assert(s@.take(4) == http_word());
        s
    } else {
        assert(!starts_with_http(s@)) by {
            if s@.len() >= 4 {
                assert(s@.take(4)[0] == s@[0]);
                assert(s@.take(4)[1] == s@[1]);
                assert(s@.take(4)[2] == s@[2]);
                assert(s@.take(4)[3] == s@[3]);
            }
        }
        let mut v: Vec<char> = vec!['h', 't', 't', 'p', ':', '/', '/'];
        push_range(&mut v, s.as_slice(), 0, s.len());
        assert(s@.subrange(0, s@.len() as int) == s@);
        v
    }
}

/// The first index where `s` holds `://`, or `s.len()`.
pub fn find_sep(s: &[char]) -> (r: usize)
    ensures
        r == find_sep_from(s@, 0),
        r < s@.len() ==> r + 3 <= s@.len(),
{
    let mut i: usize = 0;
    while i < s.len() && s.len() - i >= 3
        invariant
            i <= s@.len(),
            find_sep_from(s@, 0) == find_sep_from(s@, i as int),
        decreases s@.len() - i,
    {
        if s[i] == ':' && s[i + 1] == '/' && s[i + 2] == '/' {
            return i;
        }
        i = i + 1;
    }
    s.len()
}

/// The characters `s[lo..hi]`, as a vector.
pub fn copy_range(s: &[char], lo: usize, hi: usize) -> (r: Vec<char>)
    requires
        lo <= hi <= s@.len(),
    ensures
        r@ == s@.subrange(lo as int, hi as int),
{
    let mut v: Vec<char> = Vec::new();
    push_range(&mut v, s, lo, hi);
    v
}

/// The segment of `q` that holds its last `.`, if any.
pub fn find_file(q: &[char]) -> (r: Option<String>)
    ensures
        opt_chars(r) == file_of(q@),
{
    match rfind_char_before(q, '.', q.len()) {
        None => None,
        Some(d) => {
            proof {
                lemma_rfind_before_bounds(q@, '.', q@.len() as int);
                lemma_rfind_before_bounds(q@, '/', d as int);
                lemma_find_from_bounds(q@, '/', d as int);
            }
            let start = match rfind_char_before(q, '/', d) {
                Some(j) => j + 1,
                None => 0,
            };
            let end = find_char_from(q, '/', d);
            Some(string_range(q, start, end))
        },
    }
}

impl ParsedUrl {
    /// Parses `url`. Without a scheme, `http` is assumed; without a port,
    /// the scheme's default is used; without a path, `/`.
    pub fn from(url: &str) -> (r: Result<ParsedUrl, Error>)
        ensures
            match parse_url(url@) {
                Some(m) => r is Ok && r->Ok_0@ == m,
                None => r == Err::<ParsedUrl, Error>(Error::UrlParsingError),
            },
    {
        let a = add_scheme(chars_of(url));
        let k = find_sep(a.as_slice());
        if k >= a.len() {
            return Err(Error::UrlParsingError);
        }
        let scheme = copy_range(a.as_slice(), 0, k);
        let rest = copy_range(a.as_slice(), k + 3, a.len());
        let h = find_char_from(rest.as_slice(), '/', 0);
        proof {
            lemma_find_from_bounds(rest@, '/', 0);
        }
        let auth = copy_range(rest.as_slice(), 0, h);
        let tail = copy_range(rest.as_slice(), h, rest.len());
        let c = find_char_from(auth.as_slice(), ':', 0);
        proof {
            lemma_find_from_bounds(auth@, ':', 0);
        }
        let is_http = scheme.len() == 4 && scheme[0] == 'h' && scheme[1] == 't' && scheme[2] == 't'
            && scheme[3] == 'p';
        let is_https = scheme.len() == 5 && scheme[0] == 'h' && scheme[1] == 't' && scheme[2]
            == 't' && scheme[3] == 'p' && scheme[4] == 's';
        assert(is_http <==> scheme@ == http_word()) by {
            if scheme@ == http_word() {
                assert(scheme@[0] == 'h' && scheme@[3] == 'p');
            }
            if is_http {
                assert(scheme@ =~= http_word());
            }
        }
        assert(is_https <==> scheme@ == https_word()) by {
            if scheme@ == https_word() {
                assert(scheme@[0] == 'h' && scheme@[4] == 's');
            }
            if is_https {
                assert(scheme@ =~= https_word());
            }
        }
        if !is_http && !is_https {
            return Err(Error::UrlParsingError);
        }
        if c == 0 {
            return Err(Error::UrlParsingError);
        }
        let port: usize = if c < auth.len() {
            let text = copy_range(auth.as_slice(), c + 1, auth.len());
            match parse_decimal(text.as_slice()) {
                Some(p) => {
                    if p < 1 || p > 65535 {
                        return Err(Error::UrlParsingError);
                    }
                    p
                },
                None => {
                    return Err(Error::UrlParsingError);
                },
            }
        } else if is_https {
            443
        } else {
            80
        };
        let q_end = find_char_from(tail.as_slice(), '?', 0);
        proof {
            lemma_find_from_bounds(tail@, '?', 0);
        }
        let q = copy_range(tail.as_slice(), 0, q_end);
        let file = find_file(q.as_slice());
        let path = if tail.len() == 0 {
            string_range(&['/'], 0, 1)
        } else {
            string_range(tail.as_slice(), 0, tail.len())
        };
        assert(tail@.subrange(0, tail@.len() as int) == tail@);
        let host = string_range(auth.as_slice(), 0, c);
        let scheme_text = string_range(scheme.as_slice(), 0, k);
        assert(scheme@.subrange(0, k as int) == scheme@);
        let r = ParsedUrl { scheme: scheme_text, host, port, path, file };
        assert(r@.scheme == parse_url(url@)->Some_0.scheme);
        assert(r@.host == parse_url(url@)->Some_0.host);
        assert(r@.port == parse_url(url@)->Some_0.port);
        assert(r@.path == parse_url(url@)->Some_0.path);
        assert(r@.file == parse_url(url@)->Some_0.file);
        Ok(r)
    }
}

} // verus!
