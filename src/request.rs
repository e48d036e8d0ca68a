//! Requests and their encoding into the bytes of an HTTP/1.1 request.
use vstd::prelude::*;
use vstd::utf8::encode_utf8;
use vstd::slice::slice_to_vec;
use crate::fields::{
    Entry, HttpHeader, HttpParams, joined, lookup, sorted_by_key, lemma_canonical, insert_all,
    distinct_keys, law_insertion_order,
};

verus! {

/// Request methods.
#[derive(Debug, Clone, Copy, PartialEq, Eq, Structural)]
pub enum HttpMethod {
    Get,
    Post,
    Update,
    Delete,
    Patch,
}

/// The upper-case token of a method on the request line.
pub open spec fn method_token(m: HttpMethod) -> Seq<char> {
    match m {
        HttpMethod::Get => "GET"@,
        HttpMethod::Post => "POST"@,
        HttpMethod::Update => "UPDATE"@,
        HttpMethod::Delete => "DELETE"@,
        HttpMethod::Patch => "PATCH"@,
    }
}

impl Default for HttpMethod {
    fn default() -> (r: Self)
        ensures
            r == HttpMethod::Get,
    {
        HttpMethod::Get
    }
}

impl HttpMethod {
    /// The method's token, e.g. `GET`.
    pub fn to_string(&self) -> (r: &'static str)
        ensures
            r@ == method_token(*self),
    {
        match self {
            HttpMethod::Get => "GET",
            HttpMethod::Post => "POST",
            HttpMethod::Update => "UPDATE",
            HttpMethod::Delete => "DELETE",
            HttpMethod::Patch => "PATCH",
        }
    }
}

/// What a request holds, as plain values: the path, the host for the
/// `Host` field if one was set, the method, header fields, query
/// parameters and body.
pub struct RequestView {
    pub url: Seq<char>,
    pub host: Option<Seq<char>>,
    pub method: HttpMethod,
    pub header: Option<Seq<Entry>>,
    pub params: Option<Seq<Entry>>,
    pub body: Option<Seq<u8>>,
}

/// `?` and the parameters, when there are parameters.
pub open spec fn query_part(p: Option<Seq<Entry>>) -> Seq<char> {
    match p {
        Some(s) => "?"@ + joined(s, "="@, "&"@),
        None => Seq::empty(),
    }
}

/// The host named in the `Host` field: `localhost` unless one was set.
pub open spec fn host_part(h: Option<Seq<char>>) -> Seq<char> {
    match h {
        Some(x) => x,
        None => "localhost"@,
    }
}

/// One CRLF-terminated `key: value` line per header field.
pub open spec fn header_block(h: Option<Seq<Entry>>) -> Seq<char> {
    match h {
        Some(s) => if s.len() > 0 {
            joined(s, ": "@, "\r\n"@) + "\r\n"@
        } else {
            Seq::empty()
        },
        None => Seq::empty(),
    }
}

/// Request line, `Host` line, header lines and the blank line.
pub open spec fn request_head(r: RequestView) -> Seq<char> {
    method_token(r.method) + " "@ + r.url + query_part(r.params) + " HTTP/1.1\r\nHost: "@
        + host_part(r.host) + "\r\n"@ + header_block(r.header) + "\r\n"@
}

/// The body, when there is one, followed by CRLF.
pub open spec fn body_part(b: Option<Seq<u8>>) -> Seq<u8> {
    match b {
        Some(x) => x + seq![13u8, 10u8],
        None => Seq::empty(),
    }
}

/// The bytes of the encoded request.
pub open spec fn encode_request(r: RequestView) -> Seq<u8> {
    encode_utf8(request_head(r)) + body_part(r.body)
}

/// An HTTP request, assembled by chained setters; each setter replaces the
/// earlier value of its field.
pub struct Request {
    url: String,
    base_url: Option<String>,
    method: HttpMethod,
    header: Option<HttpHeader>,
    params: Option<HttpParams>,
    body: Option<Vec<u8>>,
}

impl View for Request {
    type V = RequestView;

    closed spec fn view(&self) -> RequestView {
        RequestView {
            url: self.url@,
            host: match self.base_url {
                Some(h) => Some(h@),
                None => None,
            },
            method: self.method,
            header: match self.header {
                Some(h) => Some(h@),
                None => None,
            },
            params: match self.params {
                Some(p) => Some(p@),
                None => None,
            },
            body: match self.body {
                Some(b) => Some(b@),
                None => None,
            },
        }
    }
}

impl Request {
    /// A `GET` request for `url` with nothing else set.
    pub fn new(url: String) -> (r: Self)
        ensures
            r@ == (RequestView {
                url: url@,
                host: None,
                method: HttpMethod::Get,
                header: None,
                params: None,
                body: None,
            }),
    {
        Request {
            url,
            base_url: None,
            method: HttpMethod::default(),
            header: None,
            params: None,
            body: None,
        }
    }

    /// Sets the host named in the `Host` field.
    pub fn base_url(self, p: String) -> (r: Self)
        ensures
            r@ == (RequestView { host: Some(p@), ..self@ }),
    {
        Request { base_url: Some(p), ..self }
    }

    /// Sets the method.
    pub fn method(self, p: HttpMethod) -> (r: Self)
        ensures
            r@ == (RequestView { method: p, ..self@ }),
    {
        Request { method: p, ..self }
    }

    /// Sets the header fields.
    pub fn header(self, p: HttpHeader) -> (r: Self)
        ensures
            r@ == (RequestView { header: Some(p@), ..self@ }),
    {
        Request { header: Some(p), ..self }
    }

    /// Sets the query parameters.
    pub fn params(self, p: HttpParams) -> (r: Self)
        ensures
            r@ == (RequestView { params: Some(p@), ..self@ }),
    {
        Request { params: Some(p), ..self }
    }

    /// Sets the body.
    pub fn body(self, p: Vec<u8>) -> (r: Self)
        ensures
            r@ == (RequestView { body: Some(p@), ..self@ }),
    {
        Request { body: Some(p), ..self }
    }

    /// A `GET` request for `url`.
    pub fn get(url: &str) -> (r: Self)
        ensures
            r@ == (RequestView {
                url: url@,
                host: None,
                method: HttpMethod::Get,
                header: None,
                params: None,
                body: None,
            }),
    {
        Request::new(url.to_owned()).method(HttpMethod::Get)
    }

    /// The request's bytes: request line, `Host` line, one line per header
    /// field, a blank line, then the body followed by CRLF when there is one.
    pub fn build(&self) -> (r: Vec<u8>)
        ensures
            r@ == encode_request(self@),
    {
        let mut head = String::new();
        head.append(self.method.to_string());
        head.append(" ");
        head.append(self.url.as_str());
        match &self.params {
            Some(p) => {
                head.append("?");
                let q = p.to_string();
                head.append(q.as_str());
            },
            None => {},
        }
        head.append(" HTTP/1.1\r\nHost: ");
        match &self.base_url {
            Some(h) => head.append(h.as_str()),
            None => head.append("localhost"),
        }
        head.append("\r\n");
        match &self.header {
            Some(h) => {
                if h.len() > 0 {
                    let lines = h.to_string();
                    head.append(lines.as_str());
                    head.append("\r\n");
                }
            },
            None => {},
        }
        head.append("\r\n");
        assert(head@ =~= request_head(self@));
        let mut out = slice_to_vec(head.as_str().as_bytes());
        match &self.body {
            Some(b) => {
                let mut data = slice_to_vec(b.as_slice());
                out.append(&mut data);
                out.push(13u8);
                out.push(10u8);
            },
            None => {},
        }
        assert(out@ =~= encode_request(self@));
        out
    }
}

/// One `key: value` line, CRLF-terminated, per entry, in order.
pub open spec fn field_lines(s: Seq<Entry>) -> Seq<char>
    decreases s.len(),
{
    if s.len() == 0 {
        Seq::empty()
    } else {
        field_lines(s.drop_last()) + (s.last().0 + ": "@ + s.last().1 + "\r\n"@)
    }
}

/// A request with no parameters, header fields or body encodes as its
/// request line, its `Host` line and a blank line.
pub proof fn law_plain_request(r: RequestView)
    requires
        r.params is None,
        r.header is None,
        r.body is None,
    ensures
        encode_request(r) == encode_utf8(
            method_token(r.method) + " "@ + r.url + " HTTP/1.1\r\nHost: "@ + host_part(r.host)
                + "\r\n\r\n"@,
        ),
{
    reveal_strlit("\r\n\r\n");
    reveal_strlit("\r\n");
    assert(request_head(r) =~= method_token(r.method) + " "@ + r.url + " HTTP/1.1\r\nHost: "@
        + host_part(r.host) + "\r\n\r\n"@);
    assert(encode_request(r) =~= encode_utf8(request_head(r)));
}

/// Parameters that bind the same names to the same values give the same
/// query string, whatever order they were added in; the names appear in
/// increasing byte order.
pub proof fn law_query_order(p: Seq<Entry>, q: Seq<Entry>)
    requires
        sorted_by_key(p),
        sorted_by_key(q),
        forall|k: Seq<char>| #[trigger] lookup(p, k) == lookup(q, k),
    ensures
        query_part(Some(p)) == query_part(Some(q)),
{
    lemma_canonical(p, q);
}

/// The header fields of a request take one CRLF-terminated `key: value`
/// line each, in key order, between the `Host` line and the blank line.
pub proof fn law_header_lines(r: RequestView, h: Seq<Entry>)
    requires
        r.header == Some(h),
    ensures
        request_head(r) == method_token(r.method) + " "@ + r.url + query_part(r.params)
            + " HTTP/1.1\r\nHost: "@ + host_part(r.host) + "\r\n"@ + field_lines(h) + "\r\n"@,
{
    lemma_field_lines(h);
}

proof fn lemma_field_lines(h: Seq<Entry>)
    ensures
        header_block(Some(h)) == field_lines(h),
    decreases h.len(),
{
    if h.len() == 1 {
        assert(h.drop_last() =~= Seq::<Entry>::empty());
        assert(field_lines(h.drop_last()) =~= Seq::<char>::empty());
        assert(header_block(Some(h)) =~= field_lines(h));
    } else if h.len() > 1 {
        lemma_field_lines(h.drop_last());
        assert(header_block(Some(h)) =~= field_lines(h));
    }
}

/// A body is sent verbatim after the blank line that ends the head,
/// followed by CRLF.
pub proof fn law_body_placement(r: RequestView, b: Seq<u8>)
    requires
        r.body == Some(b),
    ensures
        encode_request(r) == encode_utf8(request_head(r)) + b + seq![13u8, 10u8],
        request_head(r).len() >= 4,
        request_head(r).subrange(request_head(r).len() - 4, request_head(r).len() as int)
            == "\r\n\r\n"@,
{
    reveal_strlit("\r\n\r\n");
    reveal_strlit("\r\n");
    let h = request_head(r);
    let pre = method_token(r.method) + " "@ + r.url + query_part(r.params) + " HTTP/1.1\r\nHost: "@
        + host_part(r.host);
    match r.header {
        Some(hs) => {
            if hs.len() > 0 {
                let j = joined(hs, ": "@, "\r\n"@);
                assert(h =~= (pre + "\r\n"@ + j) + "\r\n"@ + "\r\n"@);
            } else {
                assert(h =~= pre + "\r\n"@ + "\r\n"@);
            }
        },
        None => {
            assert(h =~= pre + "\r\n"@ + "\r\n"@);
        },
    }
    assert(h.subrange(h.len() - 4, h.len() as int) =~= "\r\n\r\n"@);
}

/// Two requests that differ only in the order their parameters were added
/// (the same pairs, with distinct names) encode to the same bytes.
pub proof fn law_params_insertion_order(r1: RequestView, r2: RequestView, p1: Seq<Entry>, p2: Seq<Entry>)
    requires
        r1.url == r2.url,
        r1.host == r2.host,
        r1.method == r2.method,
        r1.header == r2.header,
        r1.body == r2.body,
        r1.params == Some(insert_all(Seq::empty(), p1, false)),
        r2.params == Some(insert_all(Seq::empty(), p2, false)),
        distinct_keys(p1),
        distinct_keys(p2),
        forall|x: Entry| p1.contains(x) <==> p2.contains(x),
    ensures
        encode_request(r1) == encode_request(r2),
{
    law_insertion_order(p1, p2);
    assert(r1 == r2);
}

} // verus!
