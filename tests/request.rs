use unix_socket::fields::{FieldValue, HttpHeader, HttpParams};
use unix_socket::request::{HttpMethod, Request};

#[test]
fn request_build() {
    let req = Request::new("/images/json".to_string()).method(HttpMethod::Get);
    let want = ["GET /images/json HTTP/1.1", "Host: localhost", "", ""].join("\r\n");
    let got = String::from_utf8(req.build()).unwrap();
    assert_eq!(want, got);
}

#[test]
fn request_get() {
    let req = Request::get("/images/json");
    let want = ["GET /images/json HTTP/1.1", "Host: localhost", "", ""].join("\r\n");
    let got = String::from_utf8(req.build()).unwrap();
    assert_eq!(want, got);
}

#[test]
fn request_with_options() {
    let req = Request::new("/images/json".into());
    let params = HttpParams::from_pairs(&[("name", "nvim"), ("image", "ubuntu")]);

    let header = HttpHeader::from_pairs(&[("bar", "1000"), ("foo", "value")]);

    let body = "test body".to_string().as_bytes().to_vec();

    let req = req.method(HttpMethod::Get).params(params).header(header).body(body);

    let want = [
        "GET /images/json?image=ubuntu&name=nvim HTTP/1.1",
        "Host: localhost",
        "bar: 1000",
        "foo: value",
        "",
        "test body",
        "",
    ]
    .join("\r\n");
    let got = String::from_utf8(req.build()).unwrap();
    assert_eq!(want, got);
}

#[test]
fn plain_request_uses_given_host() {
    let req = Request::new("/_ping".to_string())
        .method(HttpMethod::Delete)
        .base_url("docker".to_string());
    assert_eq!(req.build(), b"DELETE /_ping HTTP/1.1\r\nHost: docker\r\n\r\n".to_vec());
}

#[test]
fn method_tokens() {
    assert_eq!(HttpMethod::Get.to_string(), "GET");
    assert_eq!(HttpMethod::Post.to_string(), "POST");
    assert_eq!(HttpMethod::Update.to_string(), "UPDATE");
    assert_eq!(HttpMethod::Delete.to_string(), "DELETE");
    assert_eq!(HttpMethod::Patch.to_string(), "PATCH");
    assert_eq!(HttpMethod::default(), HttpMethod::Get);
}

#[test]
fn params_order_does_not_depend_on_insertion() {
    let mut a = HttpParams::new();
    a.add("z", "1");
    a.add("a", "2");
    a.add("m", "3");
    let mut b = HttpParams::new();
    b.add("m", "3");
    b.add("z", "1");
    b.add("a", "2");
    assert_eq!(a.to_string(), "a=2&m=3&z=1");
    assert_eq!(a.to_string(), b.to_string());
    let ra = Request::get("/x").params(a).build();
    let rb = Request::get("/x").params(b).build();
    assert_eq!(ra, rb);
    assert_eq!(ra, b"GET /x?a=2&m=3&z=1 HTTP/1.1\r\nHost: localhost\r\n\r\n".to_vec());
}

#[test]
fn params_last_value_wins() {
    let mut p = HttpParams::new();
    p.add("all", "false");
    p.add("all", "true");
    assert_eq!(p.len(), 1);
    assert_eq!(p.to_string(), "all=true");
}

#[test]
fn params_keys_keep_case() {
    let mut p = HttpParams::new();
    p.add("b", "1");
    p.add("B", "2");
    assert_eq!(p.to_string(), "B=2&b=1");
}

#[test]
fn header_lines_sorted_and_lowercased() {
    let mut h = HttpHeader::new();
    h.add("X-Registry-Auth", "abc");
    h.add("Content-Type", "application/json");
    h.add("content-type", "text/plain");
    assert_eq!(h.len(), 2);
    assert_eq!(h.to_string(), "content-type: text/plain\r\nx-registry-auth: abc");
    assert_eq!(h.get("CONTENT-TYPE"), Some(&"text/plain".to_string()));
    assert_eq!(h.get("accept"), None);
    let req = Request::new("/build".to_string()).method(HttpMethod::Post).header(h);
    let want = "POST /build HTTP/1.1\r\nHost: localhost\r\ncontent-type: text/plain\r\nx-registry-auth: abc\r\n\r\n";
    assert_eq!(String::from_utf8(req.build()).unwrap(), want);
}

#[test]
fn empty_header_adds_no_lines() {
    let req = Request::get("/info").header(HttpHeader::new());
    assert_eq!(req.build(), b"GET /info HTTP/1.1\r\nHost: localhost\r\n\r\n".to_vec());
}

#[test]
fn body_follows_blank_line_without_header() {
    let req = Request::new("/containers/create".to_string())
        .method(HttpMethod::Post)
        .body(vec![0u8, 255u8, b'{', b'}']);
    let mut want = b"POST /containers/create HTTP/1.1\r\nHost: localhost\r\n\r\n".to_vec();
    want.extend_from_slice(&[0u8, 255u8, b'{', b'}', b'\r', b'\n']);
    assert_eq!(req.build(), want);
}

#[test]
fn empty_params_leave_question_mark() {
    let req = Request::get("/v").params(HttpParams::new());
    assert_eq!(req.build(), b"GET /v? HTTP/1.1\r\nHost: localhost\r\n\r\n".to_vec());
}


#[test]
fn setters_replace_earlier_values() {
    let req = Request::get("/a")
        .method(HttpMethod::Patch)
        .method(HttpMethod::Post)
        .base_url("one".to_string())
        .base_url("two".to_string())
        .body(b"x".to_vec())
        .body(b"y".to_vec());
    assert_eq!(req.build(), b"POST /a HTTP/1.1\r\nHost: two\r\n\r\ny\r\n".to_vec());
}

#[test]
fn from_pairs_later_pair_wins() {
    let h = HttpHeader::from_pairs(&[("Accept", "a"), ("Host-Name", "x"), ("ACCEPT", "b")]);
    assert_eq!(h.to_string(), "accept: b\r\nhost-name: x");
    let p = HttpParams::from_pairs(&[("q", "1"), ("Q", "2"), ("q", "3")]);
    assert_eq!(p.to_string(), "Q=2&q=3");
    assert_eq!(HttpParams::from_pairs(&[]).len(), 0);
}

#[test]
fn field_values_render_in_decimal() {
    assert_eq!(FieldValue::Integer(0).to_string(), "0");
    assert_eq!(FieldValue::Integer(1000).to_string(), "1000");
    assert_eq!(FieldValue::Integer(-42).to_string(), "-42");
    assert_eq!(FieldValue::Integer(i64::MIN).to_string(), "-9223372036854775808");
    assert_eq!(FieldValue::Integer(i64::MAX).to_string(), "9223372036854775807");
    assert_eq!(FieldValue::Text("ubuntu".to_string()).to_string(), "ubuntu");
}

#[test]
fn field_values_in_params_and_header() {
    let mut p = HttpParams::new();
    p.add_value("limit", &FieldValue::Integer(10));
    p.add_value("all", &FieldValue::Text("true".to_string()));
    let mut h = HttpHeader::new();
    h.add_value("Content-Length", &FieldValue::Integer(2));
    let req = Request::new("/containers/json".to_string())
        .method(HttpMethod::Post)
        .params(p)
        .header(h)
        .body(b"{}".to_vec());
    let want = "POST /containers/json?all=true&limit=10 HTTP/1.1\r\nHost: localhost\r\ncontent-length: 2\r\n\r\n{}\r\n";
    assert_eq!(String::from_utf8(req.build()).unwrap(), want);
}
