//! The request builder and its wire encoding.

use vstd::prelude::*;
use vstd::string::to_string_from_display_ensures;
use vstd::utf8::encode_utf8;
use core::ops::Range;
use crate::method::{method_name, Method};
use crate::response::{header_index, header_view, lemma_header_index, HeaderList};
use crate::text::{
    chars_of, decimal_text, names_equal, push_decimal, push_str, same_name, string_of,
};
use crate::url::{ParsedUrl, UrlParts};

verus! {

/// The boundary between the parts of a multipart body.
pub const BOUNDARY: &'static str = "X_HTTPCLIENT_BOUNDARY";

/// A request, as values.
pub struct RequestParts {
    pub method: Method,
    pub headers: HeaderList,
    pub query_strings: Seq<char>,
    pub range: Option<(nat, nat)>,
    pub body: Option<Seq<u8>>,
}

/// One HTTP request: method, headers, query, an optional byte range and an
/// optional body.
pub struct Request {
    method: Method,
    headers: Vec<(String, String)>,
    query_strings: String,
    range: Option<Range<usize>>,
    body: Option<Vec<u8>>,
}

pub open spec fn range_view(r: Option<Range<usize>>) -> Option<(nat, nat)> {
    match r {
        Some(x) => Some((x.start as nat, x.end as nat)),
        None => None,
    }
}

pub open spec fn body_view(b: Option<Vec<u8>>) -> Option<Seq<u8>> {
    match b {
        Some(v) => Some(v@),
        None => None,
    }
}

/// Whether no two headers have the same name, ASCII case aside.
pub open spec fn names_distinct(hs: HeaderList) -> bool {
    forall|i: int, j: int|
        0 <= i < j < hs.len() ==> !same_name(#[trigger] hs[i].0, #[trigger] hs[j].0)
}

impl Request {
    /// Header names never repeat, ASCII case aside.
    #[verifier::type_invariant]
    closed spec fn headers_distinct(self) -> bool {
        names_distinct(header_view(self.headers@))
    }
}

impl View for Request {
    type V = RequestParts;

    closed spec fn view(&self) -> RequestParts {
        RequestParts {
            method: self.method,
            headers: header_view(self.headers@),
            query_strings: self.query_strings@,
            range: range_view(self.range),
            body: body_view(self.body),
        }
    }
}

/// The headers with `name` set to `value`: an existing header of that name,
/// ASCII case aside, keeps its place and its spelling and takes the value;
/// otherwise the header is added at the end.
pub open spec fn put_header(hs: HeaderList, name: Seq<char>, value: Seq<char>) -> HeaderList {
    let i = header_index(hs, name, 0);
    if i < hs.len() {
        hs.update(i, (hs[i].0, value))
    } else {
        hs.push((name, value))
    }
}

/// The headers after setting each of `kvs` in turn.
pub open spec fn put_all(hs: HeaderList, kvs: HeaderList) -> HeaderList
    decreases kvs.len(),
{
    if kvs.len() == 0 {
        hs
    } else {
        put_header(put_all(hs, kvs.drop_last()), kvs.last().0, kvs.last().1)
    }
}

/// The text a query item adds after the existing query `q`.
pub open spec fn query_item(q: Seq<char>, key: Seq<char>, value: Seq<char>) -> Seq<char> {
    (if q.len() == 0 {
        Seq::empty()
    } else {
        seq!['&']
    }) + key + seq!['='] + value
}

/// The bytes a URL-encoded form item adds to the body.
pub open spec fn form_item(body: Option<Seq<u8>>, key: Seq<char>, value: Seq<char>) -> Seq<u8> {
    match body {
        Some(b) => b + encode_utf8(seq!['&'] + key + seq!['='] + value),
        None => encode_utf8(key + seq!['='] + value),
    }
}

/// The opening line of a multipart body.
pub open spec fn boundary_line() -> Seq<char> {
    "--"@ + BOUNDARY@ + "\r\n"@
}

/// A multipart text field, followed by the boundary.
pub open spec fn data_part(key: Seq<char>, value: Seq<char>) -> Seq<char> {
    "Content-Disposition: form-data; name=\""@ + key + "\"\r\n\r\n"@ + value + "\r\n"@
        + boundary_line()
}

/// The header of a multipart file field.
pub open spec fn file_part_head(key: Seq<char>, file_name: Seq<char>) -> Seq<char> {
    "Content-Disposition: form-data; name=\""@ + key + "\"; filename=\""@ + file_name
        + "\"\r\n\r\n"@
}

/// What follows the bytes of a multipart file field.
pub open spec fn file_part_end() -> Seq<char> {
    "\r\n"@ + boundary_line()
}

/// The body before a multipart part: the boundary line when it is the first.
pub open spec fn multipart_base(body: Option<Seq<u8>>) -> Seq<u8> {
    match body {
        Some(b) => b,
        None => encode_utf8(boundary_line()),
    }
}

/// The lines of the caller's headers, in order.
pub open spec fn header_lines(hs: HeaderList) -> Seq<char>
    decreases hs.len(),
{
    if hs.len() == 0 {
        Seq::empty()
    } else {
        header_lines(hs.drop_last()) + hs.last().0 + ": "@ + hs.last().1 + "\r\n"@
    }
}

/// The request line's target: the path, then `?` and the query if there is one.
pub open spec fn target(path: Seq<char>, query: Seq<char>) -> Seq<char> {
    if query.len() == 0 {
        path
    } else {
        path + seq!['?'] + query
    }
}

/// The request line and the header block.
pub open spec fn request_head(req: RequestParts, url: UrlParts) -> Seq<char> {
    method_name(req.method) + seq![' '] + target(url.path, req.query_strings) + " HTTP/1.1\r\n"@
        + "HOST: "@ + url.host + "\r\n"@ + header_lines(req.headers) + match req.body {
        Some(b) => "Content-Length: "@ + decimal_text(b.len()) + "\r\n"@,
        None => Seq::empty(),
    } + match req.range {
        Some(r) => "Range: bytes="@ + decimal_text(r.0) + seq!['-'] + decimal_text(r.1) + "\r\n"@,
        None => Seq::empty(),
    } + "Connection: Close\r\n"@ + "\r\n"@
}

/// The bytes sent for a request to `url`.
pub open spec fn request_bytes(req: RequestParts, url: UrlParts) -> Seq<u8> {
    encode_utf8(request_head(req, url)) + match req.body {
        Some(b) => b,
        None => Seq::empty(),
    } + seq![13u8, 10u8, 13u8, 10u8]
}

proof fn lemma_put_distinct(hs: HeaderList, name: Seq<char>, value: Seq<char>)
    requires
        names_distinct(hs),
    ensures
        names_distinct(put_header(hs, name, value)),
{
    lemma_header_index(hs, name, 0);
    let i = header_index(hs, name, 0);
    let t = put_header(hs, name, value);
    assert forall|a: int, b: int| 0 <= a < b < t.len() implies !same_name(
        #[trigger] t[a].0,
        #[trigger] t[b].0,
    ) by {
        if i < hs.len() {
            assert(t[a].0 == hs[a].0 && t[b].0 == hs[b].0);
        } else if b == hs.len() {
            assert(t[a] == hs[a]);
        } else {
            assert(t[a] == hs[a] && t[b] == hs[b]);
        }
    }
}

/// Sets header `name` to `value` (see `put_header`).
fn put(hs: &mut Vec<(String, String)>, name: String, value: String)
    ensures
        header_view(final(hs)@) == put_header(header_view(old(hs)@), name@, value@),
        names_distinct(header_view(old(hs)@)) ==> names_distinct(header_view(final(hs)@)),
{
    proof {
        if names_distinct(header_view(hs@)) {
            lemma_put_distinct(header_view(hs@), name@, value@);
        }
    }
    let n = chars_of(name.as_str());
    let mut i: usize = 0;
    let ghost v = header_view(hs@);
    while i < hs.len()
        invariant
            0 <= i <= hs@.len(),
            v == header_view(hs@),
            hs@ == old(hs)@,
            v.len() == hs@.len(),
            n@ == name@,
            header_index(v, name@, 0) == header_index(v, name@, i as int),
        decreases hs@.len() - i,
    {
        let k = chars_of(hs[i].0.as_str());
        if names_equal(k.as_slice(), n.as_slice()) {
            let key = hs[i].0.clone();
            hs.set(i, (key, value));
            assert(header_view(hs@) =~= v.update(i as int, (v[i as int].0, value@)));
            return;
        }
        i = i + 1;
    }
    hs.push((name, value));
    assert(header_view(hs@) =~= v.push((name@, value@)));
}

/// Appends the UTF-8 encoding of `text` to `out`.
fn push_encoded(out: &mut Vec<u8>, text: &Vec<char>)
    ensures
        final(out)@ == old(out)@ + encode_utf8(text@),
{
    let s = string_of(text.as_slice());
    out.extend_from_slice(s.as_str().as_bytes());
}

impl Request {
    /// A GET request with no headers, query, range or body.
    pub fn new() -> (r: Request)
        ensures
            names_distinct(r@.headers),
            r@.method == Method::GET,
            r@.headers.len() == 0,
            r@.query_strings.len() == 0,
            r@.range is None,
            r@.body is None,
    {
        let r = Request {
            method: Method::GET,
            headers: Vec::new(),
            query_strings: String::new(),
            range: None,
            body: None,
        };
        assert(header_view(r.headers@).len() == 0);
        r
    }

    pub fn set_method(self, method: Method) -> (r: Request)
        ensures
            names_distinct(r@.headers),
            r@ == (RequestParts { method, ..self@ }),
    {
        proof {
            use_type_invariant(&self);
        }
        Request { method, ..self }
    }

    pub fn get_method(&self) -> (r: &Method)
        ensures
            *r == self@.method,
    {
        &self.method
    }

    /// Sets each of `headers` in turn (see `put_header`), starting from none.
    pub fn set_headers(self, headers: Vec<(String, String)>) -> (r: Request)
        ensures
            names_distinct(r@.headers),
            r@ == (RequestParts { headers: put_all(Seq::empty(), header_view(headers@)), ..self@ }),
    {
        proof {
            use_type_invariant(&self);
        }
        let mut hs: Vec<(String, String)> = Vec::new();
        let ghost kvs = header_view(headers@);
        let mut i: usize = 0;
        assert(header_view(hs@) =~= Seq::empty());
        while i < headers.len()
            invariant
                0 <= i <= headers@.len(),
                kvs == header_view(headers@),
                header_view(hs@) == put_all(Seq::empty(), kvs.take(i as int)),
                names_distinct(header_view(hs@)),
            decreases headers@.len() - i,
        {
            let k = headers[i].0.clone();
            let v = headers[i].1.clone();
            assert(kvs.take(i as int + 1).drop_last() =~= kvs.take(i as int));
            put(&mut hs, k, v);
            i = i + 1;
        }
        assert(kvs.take(headers@.len() as int) =~= kvs);
        Request { headers: hs, ..self }
    }

    pub fn get_headers(&self) -> (r: &Vec<(String, String)>)
        ensures
            header_view(r@) == self@.headers,
    {
        &self.headers
    }

    /// Asks for the bytes `range.start` to `range.end`, both included, as the
    /// `Range` header writes them.
    pub fn set_range(self, range: Range<usize>) -> (r: Request)
        ensures
            names_distinct(r@.headers),
            r@ == (RequestParts {
                range: Some((range.start as nat, range.end as nat)),
                ..self@
            }),
    {
        proof {
            use_type_invariant(&self);
        }
        Request { range: Some(range), ..self }
    }

    pub fn get_range(&self) -> (r: &Option<Range<usize>>)
        ensures
            range_view(*r) == self@.range,
    {
        &self.range
    }

    pub fn get_query_strings(&self) -> (r: &String)
        ensures
            r@ == self@.query_strings,
    {
        &self.query_strings
    }

    pub fn get_body(&self) -> (r: &Option<Vec<u8>>)
        ensures
            body_view(*r) == self@.body,
    {
        &self.body
    }

    /// The body's length in bytes; 0 without a body.
    pub fn get_content_length(&self) -> (r: usize)
        ensures
            r as nat == match self@.body {
                Some(b) => b.len(),
                None => 0,
            },
    {
        match &self.body {
            Some(b) => b.len(),
            None => 0,
        }
    }

    /// Appends `key=value` to the query, after a `&` if it is not empty.
    pub fn add_query_string<T: core::fmt::Display>(self, key: &str, value: T) -> (r: Request)
        ensures
            names_distinct(r@.headers),
            exists|v: String|
                #[trigger] to_string_from_display_ensures::<T>(&value, v) && r@ == (RequestParts {
                    query_strings: self@.query_strings + query_item(self@.query_strings, key@, v@),
                    ..self@
                }),
    {
        proof {
            use_type_invariant(&self);
        }
        let v = value.to_string();
        let mut q = chars_of(self.query_strings.as_str());
        if q.len() > 0 {
            q.push('&');
        }
        push_str(&mut q, key);
        q.push('=');
        push_str(&mut q, v.as_str());
        let r = Request { query_strings: string_of(q.as_slice()), ..self };
        assert(r@.query_strings =~= self@.query_strings + query_item(self@.query_strings, key@, v@));
        r
    }

    /// Marks the body as a URL-encoded form.
    pub fn form_data(self) -> (r: Request)
        ensures
            names_distinct(r@.headers),
            r@ == (RequestParts {
                headers: put_header(
                    self@.headers,
                    "Content-Type"@,
                    "application/x-www-form-urlencoded"@,
                ),
                ..self@
            }),
    {
        proof {
            use_type_invariant(&self);
        }
        let mut hs = self.headers;
        put(
            &mut hs,
            String::from_str("Content-Type"),
            String::from_str("application/x-www-form-urlencoded"),
        );
        Request { headers: hs, ..self }
    }

    /// Appends `key=value` to a URL-encoded body, after a `&` if the body
    /// already holds an item.
    pub fn add_form_data<T: core::fmt::Display>(self, key: &str, value: T) -> (r: Request)
        ensures
            names_distinct(r@.headers),
            exists|v: String|
                #[trigger] to_string_from_display_ensures::<T>(&value, v) && r@ == (RequestParts {
                    body: Some(form_item(self@.body, key@, v@)),
                    ..self@
                }),
    {
        proof {
            use_type_invariant(&self);
        }
        let v = value.to_string();
        let mut item: Vec<char> = Vec::new();
        let had_body = self.body.is_some();
        if had_body {
            item.push('&');
        }
        push_str(&mut item, key);
        item.push('=');
        push_str(&mut item, v.as_str());
        let mut body = match self.body {
            Some(b) => b,
            None => Vec::new(),
        };
        push_encoded(&mut body, &item);
        let r = Request { body: Some(body), ..self };
        assert(item@ =~= (if had_body {
            seq!['&'] + key@ + seq!['='] + v@
        } else {
            key@ + seq!['='] + v@
        }));
        assert(r@.body == Some(form_item(self@.body, key@, v@)));
        r
    }

    /// Marks the body as multipart form data, its parts split by `BOUNDARY`.
    pub fn multipart(self) -> (r: Request)
        ensures
            names_distinct(r@.headers),
            r@ == (RequestParts {
                headers: put_header(
                    self@.headers,
                    "Content-Type"@,
                    "multipart/form-data; boundary=\""@ + BOUNDARY@ + "\""@,
                ),
                ..self@
            }),
    {
        proof {
            use_type_invariant(&self);
        }
        let mut hs = self.headers;
        let mut ct = chars_of("multipart/form-data; boundary=\"");
        push_str(&mut ct, BOUNDARY);
        push_str(&mut ct, "\"");
        put(&mut hs, String::from_str("Content-Type"), string_of(ct.as_slice()));
        Request { headers: hs, ..self }
    }

    /// Appends a text field to a multipart body, opening the body with the
    /// boundary if it is the first part.
    pub fn add_data<T: core::fmt::Display>(self, key: &str, value: T) -> (r: Request)
        ensures
            names_distinct(r@.headers),
            exists|v: String|
                #[trigger] to_string_from_display_ensures::<T>(&value, v) && r@ == (RequestParts {
                    body: Some(multipart_base(self@.body) + encode_utf8(data_part(key@, v@))),
                    ..self@
                }),
    {
        proof {
            use_type_invariant(&self);
        }
        let v = value.to_string();
        let mut body = match self.body {
            Some(b) => b,
            None => {
                let mut first: Vec<u8> = Vec::new();
                let mut line = chars_of("--");
                push_str(&mut line, BOUNDARY);
                push_str(&mut line, "\r\n");
                push_encoded(&mut first, &line);
                first
            },
        };
        let mut item = chars_of("Content-Disposition: form-data; name=\"");
        push_str(&mut item, key);
        push_str(&mut item, "\"\r\n\r\n");
        push_str(&mut item, v.as_str());
        push_str(&mut item, "\r\n");
        push_str(&mut item, "--");
        push_str(&mut item, BOUNDARY);
        push_str(&mut item, "\r\n");
        push_encoded(&mut body, &item);
        let r = Request { body: Some(body), ..self };
        assert(item@ =~= data_part(key@, v@));
        r
    }

    /// Appends a file field to a multipart body, opening the body with the
    /// boundary if it is the first part.
    pub fn add_file(self, key: &str, file_name: &str, bytes: Vec<u8>) -> (r: Request)
        ensures
            names_distinct(r@.headers),
            r@ == (RequestParts {
                body: Some(
                    multipart_base(self@.body) + encode_utf8(file_part_head(key@, file_name@))
                        + bytes@ + encode_utf8(file_part_end()),
                ),
                ..self@
            }),
    {
        proof {
            use_type_invariant(&self);
        }
        let mut body = match self.body {
            Some(b) => b,
            None => {
                let mut first: Vec<u8> = Vec::new();
                let mut line = chars_of("--");
                push_str(&mut line, BOUNDARY);
                push_str(&mut line, "\r\n");
                push_encoded(&mut first, &line);
                assert(line@ =~= boundary_line());
                first
            },
        };
        let ghost base = body@;
        assert(base == multipart_base(self@.body));
        let mut head = chars_of("Content-Disposition: form-data; name=\"");
        push_str(&mut head, key);
        push_str(&mut head, "\"; filename=\"");
        push_str(&mut head, file_name);
        push_str(&mut head, "\"\r\n\r\n");
        push_encoded(&mut body, &head);
        body.extend_from_slice(bytes.as_slice());
        let mut tail = chars_of("\r\n");
        push_str(&mut tail, "--");
        push_str(&mut tail, BOUNDARY);
        push_str(&mut tail, "\r\n");
        push_encoded(&mut body, &tail);
        assert(head@ =~= file_part_head(key@, file_name@));
        assert(tail@ =~= file_part_end());
        assert(body@ =~= base + encode_utf8(file_part_head(key@, file_name@)) + bytes@
            + encode_utf8(file_part_end()));
        let r = Request { body: Some(body), ..self };
        r
    }

    /// Appends the caller's header lines to `h`.
    fn push_header_lines(&self, h: &mut Vec<char>)
        ensures
            final(h)@ == old(h)@ + header_lines(self@.headers),
    {
        let ghost hv = header_view(self.headers@);
        let mut i: usize = 0;
        assert(hv.take(0) =~= Seq::<(Seq<char>, Seq<char>)>::empty());
        assert(h@ =~= old(h)@ + header_lines(hv.take(0)));
        while i < self.headers.len()
            invariant
                0 <= i <= self.headers@.len(),
                hv == header_view(self.headers@),
                hv == self@.headers,
                h@ == old(h)@ + header_lines(hv.take(i as int)),
            decreases self.headers@.len() - i,
        {
            assert(hv.take(i as int + 1).drop_last() =~= hv.take(i as int));
            push_str(h, self.headers[i].0.as_str());
            push_str(h, ": ");
            push_str(h, self.headers[i].1.as_str());
            push_str(h, "\r\n");
            assert(h@ =~= old(h)@ + header_lines(hv.take(i as int + 1)));
            i = i + 1;
        }
        assert(hv.take(self.headers@.len() as int) =~= hv);
    }

    /// Appends the `Content-Length` and `Range` lines, where they apply.
    fn push_length_and_range(&self, h: &mut Vec<char>)
        ensures
            final(h)@ == old(h)@ + match self@.body {
                Some(b) => "Content-Length: "@ + decimal_text(b.len()) + "\r\n"@,
                None => Seq::empty(),
            } + match self@.range {
                Some(r) => "Range: bytes="@ + decimal_text(r.0) + seq!['-'] + decimal_text(r.1)
                    + "\r\n"@,
                None => Seq::empty(),
            },
    {
        let ghost start = h@;
        if let Some(b) = &self.body {
            push_str(h, "Content-Length: ");
            push_decimal(h, b.len());
            push_str(h, "\r\n");
        }
        let ghost mid = h@;
        assert(mid =~= start + match self@.body {
            Some(b) => "Content-Length: "@ + decimal_text(b.len()) + "\r\n"@,
            None => Seq::empty(),
        });
        if let Some(rg) = &self.range {
            push_str(h, "Range: bytes=");
            push_decimal(h, rg.start);
            h.push('-');
            push_decimal(h, rg.end);
            push_str(h, "\r\n");
        }
        assert(h@ =~= mid + match self@.range {
            Some(r) => "Range: bytes="@ + decimal_text(r.0) + seq!['-'] + decimal_text(r.1)
                + "\r\n"@,
            None => Seq::empty(),
        });
    }

    /// The request line and the header block (see `request_head`).
    fn head_chars(&self, url: &ParsedUrl) -> (h: Vec<char>)
        ensures
            h@ == request_head(self@, url@),
    {
        let mut h = chars_of(self.method.as_str());
        h.push(' ');
        push_str(&mut h, url.path.as_str());
        if !self.query_strings.as_str().is_empty() {
            h.push('?');
            push_str(&mut h, self.query_strings.as_str());
        }
        let ghost line_start = h@;
        assert(line_start =~= method_name(self@.method) + seq![' '] + target(
            url@.path,
            self@.query_strings,
        ));
        push_str(&mut h, " HTTP/1.1\r\n");
        push_str(&mut h, "HOST: ");
        push_str(&mut h, url.host.as_str());
        push_str(&mut h, "\r\n");
        self.push_header_lines(&mut h);
        self.push_length_and_range(&mut h);
        push_str(&mut h, "Connection: Close\r\n");
        push_str(&mut h, "\r\n");
        assert(h@ =~= request_head(self@, url@));
        h
    }

    /// The bytes that send this request to `url` (see `request_bytes`).
    pub fn encode(&self, url: &ParsedUrl) -> (r: Vec<u8>)
        ensures
            r@ == request_bytes(self@, url@),
    {
        let h = self.head_chars(url);
        let mut out: Vec<u8> = Vec::new();
        push_encoded(&mut out, &h);
        if let Some(b) = &self.body {
            out.extend_from_slice(b.as_slice());
        }
        out.push(13u8);
        out.push(10u8);
        out.push(13u8);
        out.push(10u8);
        assert(out@ =~= request_bytes(self@, url@));
        out
    }
}

} // verus!
