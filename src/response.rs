//! Reading an HTTP/1.1 response: a state machine fed one byte at a time.

use vstd::prelude::*;
use vstd::utf8::{decode_utf8, valid_utf8};
use crate::error::Error;
use crate::text::{
    chars_of, copy_bytes, decimal_value, find_char_from, find_from, is_decimal,
    lemma_find_from_bounds, names_equal, parse_decimal, same_name, string_range, utf8_to_string,
};
use crate::url::copy_range;

verus! {

/// A header block as names and values.
pub type HeaderList = Seq<(Seq<char>, Seq<char>)>;

/// The part of the response the reader is in.
#[derive(Debug, Clone, Copy, PartialEq, Eq, Structural)]
pub enum ReadState {
    StatusLine,
    Headers,
    Body,
}

/// What the reader holds, as values.
pub struct ReaderModel {
    pub state: ReadState,
    pub line: Seq<u8>,
    pub version: Seq<char>,
    pub status_code: nat,
    pub status_name: Seq<char>,
    pub headers: HeaderList,
    pub body: Seq<u8>,
}

/// A response, as values.
pub struct ResponseParts {
    pub version: Seq<char>,
    pub status_code: nat,
    pub status_name: Seq<char>,
    pub headers: HeaderList,
    pub body: Option<Seq<u8>>,
}

/// The line without its trailing carriage return, if it has one.
pub open spec fn strip_cr(line: Seq<u8>) -> Seq<u8> {
    if line.len() > 0 && line.last() == 13 {
        line.drop_last()
    } else {
        line
    }
}

/// Version, status code and reason phrase of a status line; the phrase is
/// the rest of the line after the second space.
pub open spec fn status_parts(t: Seq<char>) -> Option<(Seq<char>, nat, Seq<char>)> {
    let a = find_from(t, ' ', 0);
    let rest = t.subrange(a + 1, t.len() as int);
    let b = find_from(rest, ' ', 0);
    let code = rest.subrange(0, b);
    if a >= t.len() || b >= rest.len() || !is_decimal(code) || decimal_value(code)
        > usize::MAX {
        None
    } else {
        Some((t.subrange(0, a), decimal_value(code), rest.subrange(b + 1, rest.len() as int)))
    }
}

/// Name and value of a header line, split at its first `:`.
pub open spec fn header_parts(t: Seq<char>) -> Option<(Seq<char>, Seq<char>)> {
    let c = find_from(t, ':', 0);
    if c >= t.len() {
        None
    } else {
        Some((t.subrange(0, c), t.subrange(c + 1, t.len() as int)))
    }
}

/// Whether the block holds a header of exactly this name.
pub open spec fn has_header(hs: HeaderList, name: Seq<char>) -> bool {
    exists|i: int| 0 <= i < hs.len() && #[trigger] hs[i].0 == name
}

/// Whether no two headers of the block have the same name.
pub open spec fn names_unique(hs: HeaderList) -> bool {
    forall|i: int, j: int| 0 <= i < j < hs.len() ==> #[trigger] hs[i].0 != #[trigger] hs[j].0
}

proof fn lemma_add_first_unique(hs: HeaderList, name: Seq<char>, value: Seq<char>)
    requires
        names_unique(hs),
    ensures
        names_unique(add_first(hs, name, value)),
{
    if !has_header(hs, name) {
        let t = hs.push((name, value));
        assert forall|i: int, j: int| 0 <= i < j < t.len() implies #[trigger] t[i].0 != #[trigger] t[j].0 by {
            if j == hs.len() {
                assert(t[i] == hs[i]);
            } else {
                assert(t[i] == hs[i] && t[j] == hs[j]);
            }
        }
    }
}

proof fn lemma_step_unique(m: ReaderModel, b: u8)
    requires
        names_unique(m.headers),
    ensures
        step(m, b) matches Ok(n) ==> names_unique(n.headers),
{
    if m.state != ReadState::Body && b == 10 && m.state == ReadState::Headers {
        let text = strip_cr(m.line);
        if text.len() != 0 && valid_utf8(text) {
            if let Some(kv) = header_parts(decode_utf8(text)) {
                lemma_add_first_unique(m.headers, kv.0, kv.1);
            }
        }
    }
}

/// Reading never leaves two headers of the same name: of each name, only the
/// first is kept.
pub proof fn lemma_run_keeps_names_unique(m: ReaderModel, bytes: Seq<u8>)
    requires
        names_unique(m.headers),
    ensures
        run_from(m, bytes) matches Ok(n) ==> names_unique(n.headers),
    decreases bytes.len(),
{
    if bytes.len() > 0 {
        lemma_step_unique(m, bytes[0]);
        if let Ok(next) = step(m, bytes[0]) {
            lemma_run_keeps_names_unique(next, bytes.drop_first());
        }
    }
}

/// The block with the header added, unless one of that name is already there.
pub open spec fn add_first(hs: HeaderList, name: Seq<char>, value: Seq<char>) -> HeaderList {
    if has_header(hs, name) {
        hs
    } else {
        hs.push((name, value))
    }
}

/// The reader at the start of a response.
pub open spec fn initial_model() -> ReaderModel {
    ReaderModel {
        state: ReadState::StatusLine,
        line: Seq::empty(),
        version: Seq::empty(),
        status_code: 0,
        status_name: Seq::empty(),
        headers: Seq::empty(),
        body: Seq::empty(),
    }
}

/// What a newline does in the status line or the header block.
pub open spec fn end_of_line(m: ReaderModel) -> Result<ReaderModel, Error> {
    let text = strip_cr(m.line);
    match m.state {
        ReadState::StatusLine => if !valid_utf8(text) {
            Err(Error::Utf8ParsingError)
        } else {
            match status_parts(decode_utf8(text)) {
                None => Err(Error::HeaderParsingError),
                Some(p) => Ok(
                    ReaderModel {
                        state: ReadState::Headers,
                        line: Seq::empty(),
                        version: p.0,
                        status_code: p.1,
                        status_name: p.2,
                        ..m
                    },
                ),
            }
        },
        _ => if text.len() == 0 {
            Ok(ReaderModel { state: ReadState::Body, line: Seq::empty(), ..m })
        } else if !valid_utf8(text) {
            Err(Error::Utf8ParsingError)
        } else {
            match header_parts(decode_utf8(text)) {
                None => Err(Error::HeaderParsingError),
                Some(kv) => Ok(
                    ReaderModel {
                        line: Seq::empty(),
                        headers: add_first(m.headers, kv.0, kv.1),
                        ..m
                    },
                ),
            }
        },
    }
}

/// One byte read: appended to the line or the body; a newline ends a line.
pub open spec fn step(m: ReaderModel, b: u8) -> Result<ReaderModel, Error> {
    match m.state {
        ReadState::Body => Ok(ReaderModel { body: m.body.push(b), ..m }),
        _ => if b == 10 {
            end_of_line(m)
        } else {
            Ok(ReaderModel { line: m.line.push(b), ..m })
        },
    }
}

/// The reader after the bytes, or the first error they raise.
pub open spec fn run_from(m: ReaderModel, bytes: Seq<u8>) -> Result<ReaderModel, Error>
    decreases bytes.len(),
{
    if bytes.len() == 0 {
        Ok(m)
    } else {
        match step(m, bytes[0]) {
            Ok(next) => run_from(next, bytes.drop_first()),
            Err(e) => Err(e),
        }
    }
}

/// The response once the stream has ended: only after the header block.
pub open spec fn finish_model(m: ReaderModel) -> Result<ResponseParts, Error> {
    if m.state == ReadState::Body {
        Ok(
            ResponseParts {
                version: m.version,
                status_code: m.status_code,
                status_name: m.status_name,
                headers: m.headers,
                body: if m.body.len() == 0 {
                    None
                } else {
                    Some(m.body)
                },
            },
        )
    } else {
        Err(Error::HeaderParsingError)
    }
}

/// The response that a whole stream of bytes reads as.
pub open spec fn parse_response(bytes: Seq<u8>) -> Result<ResponseParts, Error> {
    match run_from(initial_model(), bytes) {
        Ok(m) => finish_model(m),
        Err(e) => Err(e),
    }
}

pub open spec fn header_view(hs: Seq<(String, String)>) -> HeaderList {
    hs.map_values(|p: (String, String)| (p.0@, p.1@))
}

/// The index of the first header of this name, or `hs.len()`.
pub open spec fn header_index(hs: HeaderList, name: Seq<char>, i: int) -> int
    decreases hs.len() - i,
{
    if i < 0 || i >= hs.len() {
        hs.len() as int
    } else if same_name(hs[i].0, name) {
        i
    } else {
        header_index(hs, name, i + 1)
    }
}

/// The value of the first header of this name.
pub open spec fn header_value(hs: HeaderList, name: Seq<char>) -> Option<Seq<char>> {
    let i = header_index(hs, name, 0);
    if i < hs.len() {
        Some(hs[i].1)
    } else {
        None
    }
}

/// An HTTP response.
#[derive(Debug)]
pub struct Response {
    pub version: String,
    pub status_code: usize,
    pub status_name: String,
    /// Names and values in order of arrival, the first of each name kept.
    pub headers: Vec<(String, String)>,
    pub body: Option<Vec<u8>>,
}

pub open spec fn opt_bytes(o: Option<Vec<u8>>) -> Option<Seq<u8>> {
    match o {
        Some(v) => Some(v@),
        None => None,
    }
}

impl View for Response {
    type V = ResponseParts;

    open spec fn view(&self) -> ResponseParts {
        ResponseParts {
            version: self.version@,
            status_code: self.status_code as nat,
            status_name: self.status_name@,
            headers: header_view(self.headers@),
            body: opt_bytes(self.body),
        }
    }
}

/// The index of the first header named `name`, or `hs.len()`.
fn find_header(hs: &Vec<(String, String)>, name: &[char]) -> (r: usize)
    ensures
        r as int == header_index(header_view(hs@), name@, 0),
{
    let ghost v = header_view(hs@);
    let mut i: usize = 0;
    while i < hs.len()
        invariant
            0 <= i <= hs@.len(),
            v == header_view(hs@),
            v.len() == hs@.len(),
            header_index(v, name@, 0) == header_index(v, name@, i as int),
        decreases hs@.len() - i,
    {
        let k = chars_of(hs[i].0.as_str());
        if names_equal(k.as_slice(), name) {
            return i;
        }
        i = i + 1;
    }
    i
}

pub proof fn lemma_header_index(hs: HeaderList, name: Seq<char>, i: int)
    requires
        0 <= i <= hs.len(),
    ensures
        i <= header_index(hs, name, i) <= hs.len(),
        header_index(hs, name, i) < hs.len() ==> same_name(hs[header_index(hs, name, i)].0, name),
        forall|k: int| i <= k < header_index(hs, name, i) ==> !same_name(#[trigger] hs[k].0, name),
    decreases hs.len() - i,
{
    if i < hs.len() && !same_name(hs[i].0, name) {
        lemma_header_index(hs, name, i + 1);
    }
}

impl Response {
    /// The value of the first header whose name is `name`, ASCII case aside.
    pub fn header(&self, name: &str) -> (r: Option<&String>)
        ensures
            match header_value(self@.headers, name@) {
                Some(v) => r is Some && r->Some_0@ == v,
                None => r is None,
            },
    {
        let n = chars_of(name);
        let i = find_header(&self.headers, n.as_slice());
        if i < self.headers.len() {
            Some(&self.headers[i].1)
        } else {
            None
        }
    }

    /// Reads a whole response: status line, headers, then the body up to the
    /// end of the bytes.
    pub fn parse(bytes: &[u8]) -> (r: Result<Response, Error>)
        ensures
            match parse_response(bytes@) {
                Ok(p) => r is Ok && r->Ok_0@ == p,
                Err(e) => r == Err::<Response, Error>(e),
            },
            r is Ok ==> names_unique(r->Ok_0@.headers),
    {
        proof {
            lemma_run_keeps_names_unique(initial_model(), bytes@);
        }
        let mut reader = ResponseReader::new();
        match reader.feed_all(bytes) {
            Ok(()) => reader.finish(),
            Err(e) => Err(e),
        }
    }
}

/// The response reader's state machine.
pub struct ResponseReader {
    state: ReadState,
    line: Vec<u8>,
    version: String,
    status_code: usize,
    status_name: String,
    headers: Vec<(String, String)>,
    body: Vec<u8>,
}

impl View for ResponseReader {
    type V = ReaderModel;

    closed spec fn view(&self) -> ReaderModel {
        ReaderModel {
            state: self.state,
            line: self.line@,
            version: self.version@,
            status_code: self.status_code as nat,
            status_name: self.status_name@,
            headers: header_view(self.headers@),
            body: self.body@,
        }
    }
}

/// The status line's three fields, if it has them.
fn split_status_line(t: &[char]) -> (r: Option<(String, usize, String)>)
    ensures
        match status_parts(t@) {
            Some(p) => r is Some && r->Some_0.0@ == p.0 && r->Some_0.1 as nat == p.1
                && r->Some_0.2@ == p.2,
            None => r is None,
        },
{
    let a = find_char_from(t, ' ', 0);
    proof {
        lemma_find_from_bounds(t@, ' ', 0);
    }
    if a >= t.len() {
        return None;
    }
    let rest = copy_range(t, a + 1, t.len());
    let b = find_char_from(rest.as_slice(), ' ', 0);
    proof {
        lemma_find_from_bounds(rest@, ' ', 0);
    }
    if b >= rest.len() {
        return None;
    }
    let code_text = copy_range(rest.as_slice(), 0, b);
    match parse_decimal(code_text.as_slice()) {
        None => None,
        Some(code) => Some(
            (string_range(t, 0, a), code, string_range(rest.as_slice(), b + 1, rest.len())),
        ),
    }
}

/// Adds a header unless one of exactly that name is already there.
fn add_header(hs: &mut Vec<(String, String)>, name: String, value: String)
    ensures
        header_view(final(hs)@) == add_first(header_view(old(hs)@), name@, value@),
{
    let ghost v = header_view(hs@);
    let mut i: usize = 0;
    while i < hs.len()
        invariant
            0 <= i <= hs@.len(),
            hs@ == old(hs)@,
            v == header_view(hs@),
            v.len() == hs@.len(),
            forall|k: int| 0 <= k < i ==> #[trigger] v[k].0 != name@,
        decreases hs@.len() - i,
    {
        if hs[i].0 == name {
            assert(v[i as int].0 == name@);
            assert(has_header(v, name@));
            return;
        }
        i = i + 1;
    }
    assert(!has_header(v, name@));
    hs.push((name, value));
    assert(header_view(hs@) =~= v.push((name@, value@)));
}

impl ResponseReader {
    /// A reader at the start of a response.
    pub fn new() -> (r: ResponseReader)
        ensures
            r@ == initial_model(),
    {
        let r = ResponseReader {
            state: ReadState::StatusLine,
            line: Vec::new(),
            version: String::new(),
            status_code: 0,
            status_name: String::new(),
            headers: Vec::new(),
            body: Vec::new(),
        };
        assert(header_view(r.headers@) =~= Seq::empty());
        r
    }

    /// Whether the header block has been read in full.
    pub fn headers_done(&self) -> (r: bool)
        ensures
            r == (self@.state == ReadState::Body),
    {
        self.state == ReadState::Body
    }

    fn end_line(&mut self) -> (r: Result<(), Error>)
        requires
            old(self)@.state != ReadState::Body,
        ensures
            match end_of_line(old(self)@) {
                Ok(m) => r is Ok && final(self)@ == m,
                Err(e) => r == Err::<(), Error>(e),
            },
    {
        let n = self.line.len();
        let keep = if n > 0 && self.line[n - 1] == 13 {
            n - 1
        } else {
            n
        };
        let text = copy_bytes(self.line.as_slice(), 0, keep);
        assert(text@ == strip_cr(self.line@));
        self.line.clear();
        let is_status = self.state == ReadState::StatusLine;
        if !is_status && keep == 0 {
            self.state = ReadState::Body;
            return Ok(());
        }
        let decoded = match utf8_to_string(text) {
            Some(s) => s,
            None => {
                return Err(Error::Utf8ParsingError);
            },
        };
        let t = chars_of(decoded.as_str());
        if is_status {
            match split_status_line(t.as_slice()) {
                None => Err(Error::HeaderParsingError),
                Some((v, c, s)) => {
                    self.version = v;
                    self.status_code = c;
                    self.status_name = s;
                    self.state = ReadState::Headers;
                    Ok(())
                },
            }
        } else {
            let c = find_char_from(t.as_slice(), ':', 0);
            proof {
                lemma_find_from_bounds(t@, ':', 0);
            }
            if c >= t.len() {
                return Err(Error::HeaderParsingError);
            }
            let name = string_range(t.as_slice(), 0, c);
            let value = string_range(t.as_slice(), c + 1, t.len());
            add_header(&mut self.headers, name, value);
            Ok(())
        }
    }

    /// Takes one byte of the response.
    pub fn feed(&mut self, byte: u8) -> (r: Result<(), Error>)
        ensures
            match step(old(self)@, byte) {
                Ok(m) => r is Ok && final(self)@ == m,
                Err(e) => r == Err::<(), Error>(e),
            },
            r is Ok && names_unique(old(self)@.headers) ==> names_unique(final(self)@.headers),
    {
        proof {
            if names_unique(self@.headers) {
                lemma_step_unique(self@, byte);
            }
        }
        if self.state == ReadState::Body {
            self.body.push(byte);
            Ok(())
        } else if byte == 10 {
            self.end_line()
        } else {
            self.line.push(byte);
            Ok(())
        }
    }

    /// Takes the bytes in order, stopping at the first error.
    pub fn feed_all(&mut self, bytes: &[u8]) -> (r: Result<(), Error>)
        ensures
            match run_from(old(self)@, bytes@) {
                Ok(m) => r is Ok && final(self)@ == m,
                Err(e) => r == Err::<(), Error>(e),
            },
            r is Ok && names_unique(old(self)@.headers) ==> names_unique(final(self)@.headers),
    {
        proof {
            if names_unique(self@.headers) {
                lemma_run_keeps_names_unique(self@, bytes@);
            }
        }
        let mut i: usize = 0;
        assert(bytes@.subrange(0, bytes@.len() as int) == bytes@);
        while i < bytes.len()
            invariant
                0 <= i <= bytes@.len(),
                run_from(old(self)@, bytes@) == run_from(self@, bytes@.subrange(i as int, bytes@.len() as int)),
            decreases bytes@.len() - i,
        {
            assert(bytes@.subrange(i as int, bytes@.len() as int).drop_first() == bytes@.subrange(
                i as int + 1,
                bytes@.len() as int,
            ));
            match self.feed(bytes[i]) {
                Ok(()) => {},
                Err(e) => {
                    return Err(e);
                },
            }
            i = i + 1;
        }
        assert(bytes@.subrange(bytes@.len() as int, bytes@.len() as int) == Seq::<u8>::empty());
        Ok(())
    }

    /// The response, once the stream has ended.
    pub fn finish(self) -> (r: Result<Response, Error>)
        ensures
            match finish_model(self@) {
                Ok(p) => r is Ok && r->Ok_0@ == p,
                Err(e) => r == Err::<Response, Error>(e),
            },
    {
        if self.state != ReadState::Body {
            return Err(Error::HeaderParsingError);
        }
        let body = if self.body.len() == 0 {
            None
        } else {
            Some(self.body)
        };
        Ok(
            Response {
                version: self.version,
                status_code: self.status_code,
                status_name: self.status_name,
                headers: self.headers,
                body,
            },
        )
    }
}

} // verus!
