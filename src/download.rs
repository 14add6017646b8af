//! The download coordinator's decisions: following redirects, naming the
//! file, sizing the resource, and scheduling its segments.

use vstd::prelude::*;
use rand::Rng;
use crate::error::{DownloadFailure, Error};
use crate::response::{header_value, HeaderList, Response, ResponseParts};
use crate::text::{
    chars_of, decimal_value, find_char_from, find_from, has_char, is_decimal,
    lemma_find_from_bounds, lemma_find_from_is, parse_decimal, string_of, trim_chars, trim_end_of,
    trim_ows, trim_start_of,
};
use crate::url::{copy_range, opt_chars, parse_url, ParsedUrl, UrlParts};

verus! {

/// How many redirects a download follows before it gives up.
pub const MAX_REDIRECTS: usize = 5;

/// How many segments are fetched at the same time, at most.
pub const CONCURRENCY: usize = 5;

/// The length of the name made up for a file that has none.
pub const NAME_LEN: usize = 15;

// ---------------------------------------------------------------------------
// Sizing
/// The resource's length as its `Content-Length` header gives it; 0 when the
/// header is missing or is not a number.
pub open spec fn content_length_of(hs: HeaderList) -> nat {
    match header_value(hs, "Content-Length"@) {
        Some(v) => if is_decimal(trim_ows(v)) && decimal_value(trim_ows(v)) <= usize::MAX {
            decimal_value(trim_ows(v))
        } else {
            0
        },
        None => 0,
    }
}

/// The resource's length, from the answer to the HEAD request.
pub fn content_length(head: &Response) -> (r: usize)
    ensures
        r as nat == content_length_of(head@.headers),
{
    match head.header("Content-Length") {
        Some(v) => {
            let c = chars_of(v.as_str());
            let t = trim_chars(c.as_slice(), ' ', '\t');
            match parse_decimal(t.as_slice()) {
                Some(n) => n,
                None => 0,
            }
        },
        None => 0,
    }
}

// ---------------------------------------------------------------------------
// Redirects
/// What to do after an answer to a HEAD request.
#[derive(Debug)]
pub enum Probe {
    /// Ask again, at this address.
    Follow(ParsedUrl),
    /// This answer describes the resource.
    Ready,
}

/// What an answer decides after `hops` redirects: `Some` address to follow,
/// `None` when the answer describes the resource, or an error.
pub open spec fn probe_model(head: ResponseParts, hops: nat) -> Result<Option<UrlParts>, Error> {
    let code = head.status_code;
    if 300 <= code < 400 {
        match header_value(head.headers, "Location"@) {
            None => Err(Error::DownloadError(DownloadFailure::MissingLocation)),
            Some(loc) => if hops >= MAX_REDIRECTS {
                Err(Error::DownloadError(DownloadFailure::TooManyRedirects))
            } else {
                match parse_url(trim_ows(loc)) {
                    Some(u) => Ok(Some(u)),
                    None => Err(Error::UrlParsingError),
                }
            },
        }
    } else if 200 <= code < 300 {
        Ok(None)
    } else {
        Err(Error::DownloadError(DownloadFailure::BadStatus(code as usize)))
    }
}

/// Decides what follows an answer to a HEAD request, `hops` redirects in.
pub fn probe(head: &Response, hops: usize) -> (r: Result<Probe, Error>)
    ensures
        match probe_model(head@, hops as nat) {
            Ok(Some(u)) => r is Ok && r->Ok_0 is Follow && r->Ok_0->Follow_0@ == u,
            Ok(None) => r is Ok && r->Ok_0 is Ready,
            Err(e) => r is Err && r->Err_0 == e,
        },
{
    let code = head.status_code;
    if 300 <= code && code < 400 {
        match head.header("Location") {
            None => Err(Error::DownloadError(DownloadFailure::MissingLocation)),
            Some(loc) => {
                if hops >= MAX_REDIRECTS {
                    return Err(Error::DownloadError(DownloadFailure::TooManyRedirects));
                }
                let c = chars_of(loc.as_str());
                let t = trim_chars(c.as_slice(), ' ', '\t');
                let target = string_of(t.as_slice());
                match ParsedUrl::from(target.as_str()) {
                    Ok(u) => Ok(Probe::Follow(u)),
                    Err(e) => Err(e),
                }
            },
        }
    } else if 200 <= code && code < 300 {
        Ok(Probe::Ready)
    } else {
        Err(Error::DownloadError(DownloadFailure::BadStatus(code)))
    }
}

/// Checks the status of the answer whose body becomes the file: only a
/// success (2xx) is accepted.
pub fn check_success(code: usize) -> (r: Result<(), Error>)
    ensures
        200 <= code < 300 ==> r is Ok,
        !(200 <= code < 300) ==> r == Err::<(), Error>(
            Error::DownloadError(DownloadFailure::BadStatus(code)),
        ),
{
    if 200 <= code && code < 300 {
        Ok(())
    } else {
        Err(Error::DownloadError(DownloadFailure::BadStatus(code)))
    }
}

/// What following redirects decides, given the answers to successive HEAD
/// requests made `hops` redirects in: how many redirects were followed before
/// the answer that describes the resource, or an error; `None` if the answers
/// run out first.
pub open spec fn follow_chain(chain: Seq<ResponseParts>, hops: nat) -> Option<Result<nat, Error>>
    decreases chain.len(),
{
    if chain.len() == 0 {
        None
    } else {
        match probe_model(chain[0], hops) {
            Ok(Some(_)) => follow_chain(chain.drop_first(), hops + 1),
            Ok(None) => Some(Ok(hops)),
            Err(e) => Some(Err(e)),
        }
    }
}

/// Whether an answer is a redirect to an address that parses.
pub open spec fn is_followable(r: ResponseParts) -> bool {
    &&& 300 <= r.status_code < 400
    &&& header_value(r.headers, "Location"@) is Some
    &&& parse_url(trim_ows(header_value(r.headers, "Location"@)->Some_0)) is Some
}

proof fn lemma_chain_from(chain: Seq<ResponseParts>, hops: nat)
    requires
        hops <= MAX_REDIRECTS,
        chain.len() >= 1,
        forall|i: int| 0 <= i < chain.len() - 1 ==> is_followable(#[trigger] chain[i]),
        200 <= chain.last().status_code < 300,
    ensures
        hops + chain.len() - 1 <= MAX_REDIRECTS ==> follow_chain(chain, hops) == Some(
            Ok::<nat, Error>((hops + chain.len() - 1) as nat),
        ),
        hops + chain.len() - 1 > MAX_REDIRECTS ==> follow_chain(chain, hops) == Some(
            Err::<nat, Error>(Error::DownloadError(DownloadFailure::TooManyRedirects)),
        ),
    decreases chain.len(),
{
    if chain.len() > 1 {
        assert(is_followable(chain[0]));
        if hops < MAX_REDIRECTS {
            let rest = chain.drop_first();
            assert(forall|i: int| 0 <= i < rest.len() - 1 ==> rest[i] == chain[i + 1]);
            assert(rest.last() == chain.last());
            lemma_chain_from(rest, hops + 1);
        }
    }
}

/// A chain of redirects that ends in a successful answer leads to that last
/// answer when it holds at most `MAX_REDIRECTS` redirects, and to a
/// too-many-redirects error when it holds more.
pub proof fn lemma_redirect_chain(chain: Seq<ResponseParts>)
    requires
        chain.len() >= 1,
        forall|i: int| 0 <= i < chain.len() - 1 ==> is_followable(#[trigger] chain[i]),
        200 <= chain.last().status_code < 300,
    ensures
        chain.len() - 1 <= MAX_REDIRECTS ==> follow_chain(chain, 0) == Some(
            Ok::<nat, Error>((chain.len() - 1) as nat),
        ),
        chain.len() - 1 > MAX_REDIRECTS ==> follow_chain(chain, 0) == Some(
            Err::<nat, Error>(Error::DownloadError(DownloadFailure::TooManyRedirects)),
        ),
{
    lemma_chain_from(chain, 0);
}

/// Whether an answer is a redirect that names where to go.
pub open spec fn is_redirect_with_location(r: ResponseParts) -> bool {
    &&& 300 <= r.status_code < 400
    &&& header_value(r.headers, "Location"@) is Some
}

proof fn lemma_bound_from(chain: Seq<ResponseParts>, hops: nat)
    requires
        hops <= MAX_REDIRECTS,
        chain.len() > MAX_REDIRECTS - hops,
        forall|i: int| 0 <= i < MAX_REDIRECTS - hops ==> is_followable(#[trigger] chain[i]),
        is_redirect_with_location(chain[MAX_REDIRECTS - hops]),
    ensures
        follow_chain(chain, hops) == Some(
            Err::<nat, Error>(Error::DownloadError(DownloadFailure::TooManyRedirects)),
        ),
    decreases chain.len(),
{
    if hops < MAX_REDIRECTS {
        assert(is_followable(chain[0]));
        let rest = chain.drop_first();
        assert(forall|i: int| 0 <= i < rest.len() ==> rest[i] == chain[i + 1]);
        lemma_bound_from(rest, hops + 1);
    }
}

/// Redirects are followed at most `MAX_REDIRECTS` times: when the answers
/// keep redirecting (along a longer chain, or round a loop), the next
/// redirect fails the download with too many redirects, and the answers
/// after the first `MAX_REDIRECTS + 1` are never looked at.
pub proof fn lemma_redirect_bound(chain: Seq<ResponseParts>)
    requires
        chain.len() > MAX_REDIRECTS,
        forall|i: int| 0 <= i < MAX_REDIRECTS ==> is_followable(#[trigger] chain[i]),
        is_redirect_with_location(chain[MAX_REDIRECTS as int]),
    ensures
        follow_chain(chain, 0) == Some(
            Err::<nat, Error>(Error::DownloadError(DownloadFailure::TooManyRedirects)),
        ),
        follow_chain(chain.take(MAX_REDIRECTS + 1), 0) == follow_chain(chain, 0),
{
    lemma_bound_from(chain, 0);
    let head = chain.take(MAX_REDIRECTS + 1);
    assert(forall|i: int| 0 <= i < head.len() ==> head[i] == chain[i]);
    lemma_bound_from(head, 0);
}

// ---------------------------------------------------------------------------
// Naming
/// Whether `c` is an ASCII letter or digit.
pub open spec fn is_alphanumeric(c: char) -> bool {
    ('0' <= c && c <= '9') || ('A' <= c && c <= 'Z') || ('a' <= c && c <= 'z')
}

/// The parameter name that introduces a file name.
pub open spec fn filename_word() -> Seq<char> {
    seq!['f', 'i', 'l', 'e', 'n', 'a', 'm', 'e', '=']
}

/// Whether `c` is a space or a tab.
pub open spec fn is_blank(c: char) -> bool {
    c == ' ' || c == '\t'
}

/// Whether a parameter can start at `i`: at the start of the value, or
/// after a `;` and any blanks.
pub open spec fn at_param_start(v: Seq<char>, i: int) -> bool
    decreases i,
{
    if i <= 0 {
        true
    } else if i > v.len() {
        false
    } else if v[i - 1] == ';' {
        true
    } else if is_blank(v[i - 1]) {
        at_param_start(v, i - 1)
    } else {
        false
    }
}

/// Whether a `filename=` parameter starts at `i`.
pub open spec fn word_at(v: Seq<char>, i: int) -> bool {
    0 <= i && i + 9 <= v.len() && v.subrange(i, i + 9) == filename_word() && at_param_start(v, i)
}

/// The first index at or after `i` where a `filename=` parameter starts, or
/// `v.len()`.
pub open spec fn find_word_from(v: Seq<char>, i: int) -> int
    decreases v.len() - i,
{
    if i < 0 || i + 9 > v.len() {
        v.len() as int
    } else if word_at(v, i) {
        i
    } else {
        find_word_from(v, i + 1)
    }
}

/// The first index at or after `i` that is not a blank, or `v.len()`.
pub open spec fn skip_blanks(v: Seq<char>, i: int) -> int
    decreases v.len() - i,
{
    if 0 <= i < v.len() && is_blank(v[i]) {
        skip_blanks(v, i + 1)
    } else {
        i
    }
}

/// The value of a parameter whose text starts at `q`: between quotes, up to
/// the closing quote (or the end); bare, up to the next `;`, without
/// trailing blanks.
pub open spec fn param_value(v: Seq<char>, q: int) -> Seq<char> {
    if q < v.len() && v[q] == '"' {
        v.subrange(q + 1, find_from(v, '"', q + 1))
    } else {
        trim_ows(v.subrange(q, find_from(v, ';', q)))
    }
}

/// The file name a `Content-Disposition` value gives: the value of its first
/// `filename=` parameter; `None` when there is no such parameter or its
/// value is empty.
pub open spec fn disposition_name(v: Seq<char>) -> Option<Seq<char>> {
    let p = find_word_from(v, 0);
    let name = param_value(v, skip_blanks(v, p + 9));
    if p >= v.len() || name.len() == 0 {
        None
    } else {
        Some(name)
    }
}

/// Whether `x` can stand bare as a file name in a header: not empty, with no
/// `;`, quote, space or tab.
pub open spec fn bare_name(x: Seq<char>) -> bool {
    &&& x.len() > 0
    &&& !has_char(x, ';')
    &&& !has_char(x, '"')
    &&& !has_char(x, ' ')
    &&& !has_char(x, '\t')
}

/// Whether `x` can stand between quotes as a file name: not empty, with no
/// quote.
pub open spec fn quotable_name(x: Seq<char>) -> bool {
    x.len() > 0 && !has_char(x, '"')
}

/// Whether parameters can follow `prefix`: it is empty, or ends with `;`,
/// or with `; `; and it holds no `=`.
pub open spec fn params_before(prefix: Seq<char>) -> bool {
    &&& (prefix.len() == 0 || prefix.last() == ';' || (prefix.len() >= 2 && prefix.last() == ' '
        && prefix[prefix.len() - 2] == ';'))
    &&& !has_char(prefix, '=')
}

proof fn lemma_find_word_is(v: Seq<char>, i: int, k: int)
    requires
        0 <= i <= k,
        forall|j: int| i <= j < k ==> !word_at(v, j),
        word_at(v, k),
    ensures
        find_word_from(v, i) == k,
    decreases k - i,
{
    if i < k {
        lemma_find_word_is(v, i + 1, k);
    }
}

proof fn lemma_first_word(prefix: Seq<char>, tail: Seq<char>)
    requires
        params_before(prefix),
    ensures
        find_word_from(prefix + filename_word() + tail, 0) == prefix.len(),
{
    let v = prefix + filename_word() + tail;
    let p = prefix.len() as int;
    assert forall|i: int| 0 <= i < p implies !word_at(v, i) by {
        if word_at(v, i) {
            let sub = v.subrange(i, i + 9);
            if i + 8 < p {
                assert(sub[8] == v[i + 8]);
                assert(v[i + 8] == prefix[i + 8]);
            } else {
                let k = p - 1 - i;
                assert(sub[k] == v[p - 1]);
                assert(v[p - 1] == prefix.last());
                if k >= 1 && prefix.last() == ' ' {
                    assert(sub[k - 1] == v[p - 2]);
                    assert(v[p - 2] == prefix[p - 2]);
                }
            }
        }
    }
    assert(v.subrange(p, p + 9) =~= filename_word());
    if p > 0 {
        assert(v[p - 1] == prefix.last());
        if prefix.last() != ';' {
            assert(v[p - 2] == prefix[p - 2]);
            assert(at_param_start(v, p - 1));
        }
    }
    assert(word_at(v, p));
    lemma_find_word_is(v, 0, p);
}

/// A `Content-Disposition` value holding a `filename="x"` parameter names
/// the file `x`, whatever `x` holds besides quotes (`;`, `=` and blanks
/// included), and whatever parameters come before it (with no `=` in them)
/// or after it.
pub proof fn lemma_disposition_quoted(prefix: Seq<char>, x: Seq<char>, rest: Seq<char>)
    requires
        params_before(prefix),
        quotable_name(x),
    ensures
        disposition_name(prefix + filename_word() + (seq!['"'] + x + seq!['"']) + rest) == Some(x),
{
    let w = seq!['"'] + x + seq!['"'];
    let v = prefix + filename_word() + w + rest;
    assert(v =~= prefix + filename_word() + (w + rest));
    lemma_first_word(prefix, w + rest);
    let q: int = prefix.len() + 9int;
    assert(v[q] == '"');
    assert(skip_blanks(v, q) == q);
    let close: int = q + 1 + x.len();
    assert forall|j: int| q + 1 <= j < close implies v[j] != '"' by {
        assert(v[j] == x[j - q - 1]);
    }
    assert(v[close] == '"');
    lemma_find_from_is(v, '"', q + 1, close);
    assert(v.subrange(q + 1, close) =~= x);
}

/// A `Content-Disposition` value holding a bare `filename=x` parameter names
/// the file `x`, whatever parameters come before it (with no `=` in them)
/// or after it.
pub proof fn lemma_disposition_bare(prefix: Seq<char>, x: Seq<char>, rest: Seq<char>)
    requires
        params_before(prefix),
        bare_name(x),
        rest.len() == 0 || rest[0] == ';',
    ensures
        disposition_name(prefix + filename_word() + x + rest) == Some(x),
{
    let v = prefix + filename_word() + x + rest;
    assert(v =~= prefix + filename_word() + (x + rest));
    lemma_first_word(prefix, x + rest);
    let q: int = prefix.len() + 9int;
    assert(v[q] == x[0]);
    assert(skip_blanks(v, q) == q);
    let end: int = q + x.len();
    assert forall|j: int| q <= j < end implies v[j] != ';' by {
        assert(v[j] == x[j - q]);
    }
    if rest.len() > 0 {
        assert(v[end] == rest[0]);
    }
    lemma_find_from_is(v, ';', q, end);
    assert(v.subrange(q, end) =~= x);
    assert(trim_start_of(x, ' ', '\t') == x);
    assert(trim_end_of(x, ' ', '\t') == x);
}

/// The name that the URL or the headers give the file, in that order of
/// preference.
pub open spec fn given_name(url_file: Option<Seq<char>>, disposition: Option<Seq<char>>) -> Option<
    Seq<char>,
> {
    match url_file {
        Some(f) => Some(f),
        None => match disposition {
            Some(d) => disposition_name(d),
            None => None,
        },
    }
}

pub open spec fn opt_ref_chars(o: Option<&String>) -> Option<Seq<char>> {
    match o {
        Some(s) => Some(s@),
        None => None,
    }
}

/// Whether `v` holds `filename=` at `i`.
fn word_text_at(v: &[char], i: usize) -> (r: bool)
    requires
        i + 9 <= v@.len(),
    ensures
        r == (v@.subrange(i as int, i as int + 9) == filename_word()),
{
    let r = v[i] == 'f' && v[i + 1] == 'i' && v[i + 2] == 'l' && v[i + 3] == 'e' && v[i + 4] == 'n'
        && v[i + 5] == 'a' && v[i + 6] == 'm' && v[i + 7] == 'e' && v[i + 8] == '=';
    proof {
        let sub = v@.subrange(i as int, i as int + 9);
        if r {
            assert(sub =~= filename_word());
        } else if sub == filename_word() {
            assert(sub[0] == v@[i as int] && sub[1] == v@[i + 1] && sub[2] == v@[i + 2] && sub[3]
                == v@[i + 3] && sub[4] == v@[i + 4] && sub[5] == v@[i + 5] && sub[6] == v@[i + 6]
                && sub[7] == v@[i + 7] && sub[8] == v@[i + 8]);
        }
    }
    r
}

/// The file name in a `Content-Disposition` value, if it gives one.
pub fn name_in_disposition(v: &str) -> (r: Option<String>)
    ensures
        opt_chars(r) == disposition_name(v@),
{
    let c = chars_of(v);
    let n = c.len();
    let mut p: usize = 0;
    let mut start_ok: bool = true;
    while p < n && n - p >= 9 && !(start_ok && word_text_at(c.as_slice(), p))
        invariant
            0 <= p <= n == c@.len(),
            start_ok == at_param_start(c@, p as int),
            find_word_from(c@, 0) == find_word_from(c@, p as int),
        decreases n - p,
    {
        let ch = c[p];
        start_ok = ch == ';' || ((ch == ' ' || ch == '\t') && start_ok);
        p = p + 1;
    }
    if p >= n || n - p < 9 {
        return None;
    }
    let mut q: usize = p + 9;
    while q < n && (c[q] == ' ' || c[q] == '\t')
        invariant
            p + 9 <= q <= n == c@.len(),
            skip_blanks(c@, p + 9) == skip_blanks(c@, q as int),
        decreases n - q,
    {
        q = q + 1;
    }
    let name = if q < n && c[q] == '"' {
        let close = find_char_from(c.as_slice(), '"', q + 1);
        proof {
            lemma_find_from_bounds(c@, '"', q + 1);
        }
        copy_range(c.as_slice(), q + 1, close)
    } else {
        let end = find_char_from(c.as_slice(), ';', q);
        proof {
            lemma_find_from_bounds(c@, ';', q as int);
        }
        let value = copy_range(c.as_slice(), q, end);
        trim_chars(value.as_slice(), ' ', '\t')
    };
    if name.len() == 0 {
        None
    } else {
        Some(string_of(name.as_slice()))
    }
}

/// The name that the URL's file, or else the `Content-Disposition` value,
/// gives the download.
pub fn given_file_name(url_file: &Option<String>, disposition: Option<&String>) -> (r: Option<
    String,
>)
    ensures
        opt_chars(r) == given_name(opt_chars(*url_file), opt_ref_chars(disposition)),
{
    match url_file {
        Some(f) => Some(f.clone()),
        None => match disposition {
            Some(d) => name_in_disposition(d.as_str()),
            None => None,
        },
    }
}

/// The download's file name: the URL's file, else the name in the
/// `Content-Disposition` value, else `token`.
pub fn pick_file_name(url_file: &Option<String>, disposition: Option<&String>, token: &str) -> (r:
    String)
    ensures
        r@ == match given_name(opt_chars(*url_file), opt_ref_chars(disposition)) {
            Some(n) => n,
            None => token@,
        },
{
    match given_file_name(url_file, disposition) {
        Some(n) => n,
        None => String::from_str(token),
    }
}

/// Whether `b` is the code of an ASCII letter or digit.
pub open spec fn is_alphanumeric_byte(b: u8) -> bool {
    (48 <= b <= 57) || (65 <= b <= 90) || (97 <= b <= 122)
}

/// Relies on rand's `Alphanumeric` distribution sampled from `thread_rng`:
/// `len` bytes, each the code of one of `A`-`Z`, `a`-`z`, `0`-`9`.
#[verifier::external_body]
fn random_alphanumeric(len: usize) -> (r: Vec<u8>)
    ensures
        r@.len() == len,
        forall|i: int| 0 <= i < len ==> is_alphanumeric_byte(#[trigger] r@[i]),
{
    rand::thread_rng().sample_iter(&rand::distributions::Alphanumeric).take(len).collect()
}

/// The name whose characters are the codes `bytes`, in order.
pub fn name_from_bytes(bytes: &[u8]) -> (r: String)
    ensures
        r@.len() == bytes@.len(),
        forall|i: int| 0 <= i < r@.len() ==> #[trigger] r@[i] == bytes@[i] as char,
        (forall|i: int| 0 <= i < bytes@.len() ==> is_alphanumeric_byte(#[trigger] bytes@[i]))
            ==> forall|i: int| 0 <= i < r@.len() ==> is_alphanumeric(#[trigger] r@[i]),
{
    let mut v: Vec<char> = Vec::new();
    let mut i: usize = 0;
    while i < bytes.len()
        invariant
            0 <= i <= bytes@.len(),
            v@.len() == i,
            forall|k: int| 0 <= k < i ==> #[trigger] v@[k] == bytes@[k] as char,
        decreases bytes@.len() - i,
    {
        v.push(bytes[i] as char);
        i = i + 1;
    }
    let r = string_of(v.as_slice());
    proof {
        if forall|i: int| 0 <= i < bytes@.len() ==> is_alphanumeric_byte(#[trigger] bytes@[i]) {
            assert forall|i: int| 0 <= i < r@.len() implies is_alphanumeric(#[trigger] r@[i]) by {
                assert(is_alphanumeric_byte(bytes@[i]));
            }
        }
    }
    r
}

/// A random name of `NAME_LEN` ASCII letters and digits.
pub fn random_name() -> (r: String)
    ensures
        r@.len() == NAME_LEN,
        forall|i: int| 0 <= i < r@.len() ==> is_alphanumeric(#[trigger] r@[i]),
{
    let bytes = random_alphanumeric(NAME_LEN);
    name_from_bytes(bytes.as_slice())
}

/// The download's file name, for a destination that is a directory: the
/// URL's file if it has one; else the name in the `Content-Disposition`
/// header; else `NAME_LEN` random ASCII letters and digits.
pub fn choose_file_name(url: &ParsedUrl, head: &Response) -> (r: String)
    ensures
        match given_name(url@.file, header_value(head@.headers, "Content-Disposition"@)) {
            Some(n) => r@ == n,
            None => r@.len() == NAME_LEN && forall|i: int|
                0 <= i < r@.len() ==> is_alphanumeric(#[trigger] r@[i]),
        },
{
    let d = head.header("Content-Disposition");
    match given_file_name(&url.file, d) {
        Some(n) => n,
        None => random_name(),
    }
}

} // verus!
