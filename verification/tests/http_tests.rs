use mini_bitcask::headers::Headers;
use mini_bitcask::http_request::{HttpRequest, Method, Resource, Version};
use mini_bitcask::router::{Handler, Router};
use mini_bitcask::http_response::HttpResponse;
use mini_bitcask::server::Server;
use mini_bitcask::tutor_error::TutorError;

#[test]
fn test_method_into() {
    let m: Method = "GET".into();
    assert_eq!(m, Method::Get);
}

#[test]
fn test_version_into() {
    let m: Version = "HTTP/1.1".into();
    assert_eq!(m, Version::V1_1);
}

#[test]
fn test_response_struct_creation_200() {
    let response_actual = HttpResponse::new(
        "200",
        None,
        Some("Item was shipped on 21st Dec 2020".into()),
    );
    let response_expected = HttpResponse {
        version: "HTTP/1.1",
        status_code: "200",
        status_text: "OK",
        headers: {
            let mut h = Headers::new();
            h.insert("Content-Type", "text/html");
            Some(h)
        },
        body: Some("Item was shipped on 21st Dec 2020".into()),
    };
    assert_eq!(response_actual, response_expected);
}

#[test]
fn test_response_struct_creation_404() {
    let response_actual = HttpResponse::new(
        "404",
        None,
        Some("Item was shipped on 21st Dec 2020".into()),
    );
    let response_expected = HttpResponse {
        version: "HTTP/1.1",
        status_code: "404",
        status_text: "Not Found",
        headers: {
            let mut h = Headers::new();
            h.insert("Content-Type", "text/html");
            Some(h)
        },
        body: Some("Item was shipped on 21st Dec 2020".into()),
    };
    assert_eq!(response_actual, response_expected);
}

#[test]
fn test_http_response_creation() {
    let response_expected = HttpResponse {
        version: "HTTP/1.1",
        status_code: "404",
        status_text: "Not Found",
        headers: {
            let mut h = Headers::new();
            h.insert("Content-Type", "text/html");
            Some(h)
        },
        body: Some("Item was shipped on 21st Dec 2020".into()),
    };
    let http_string: String = response_expected.into();
    let response_actual = "HTTP/1.1 404 Not Found\r\nContent-Type:text/html\r\nContent-Length: 33\r\n\r\nItem was shipped on 21st Dec 2020";
    assert_eq!(http_string, response_actual);
}

#[test]
fn methods_and_versions_by_name() {
    assert_eq!(Method::from("POST"), Method::Post);
    assert_eq!(Method::from("get"), Method::Uninitialized);
    assert_eq!(Method::from(""), Method::Uninitialized);
    assert_eq!(Version::from("HTTP/2.0"), Version::V2_0);
    assert_eq!(Version::from("HTTP/1.0"), Version::Uninitialized);
}

#[test]
fn reason_phrases() {
    assert_eq!(HttpResponse::new("200", None, None).status_text, "OK");
    assert_eq!(HttpResponse::new("400", None, None).status_text, "Bad Request");
    assert_eq!(HttpResponse::new("404", None, None).status_text, "Not Found");
    assert_eq!(HttpResponse::new("500", None, None).status_text, "Internal Server Error");
    assert_eq!(HttpResponse::new("302", None, None).status_text, "Not Found");
}

#[test]
fn default_response() {
    let r = HttpResponse::default();
    assert_eq!(r.version, "HTTP/1.1");
    assert_eq!(r.status_code, "200");
    assert_eq!(r.status_text, "OK");
    assert_eq!(r.headers, None);
    assert_eq!(r.body, None);
    assert_eq!(r.to_text(), "HTTP/1.1 200 OK\r\nContent-Length: 0\r\n\r\n");
}

#[test]
fn given_headers_are_kept_and_written_in_name_order() {
    let mut h = Headers::new();
    h.insert("X-Two", "2");
    h.insert("Accept", "*/*");
    h.insert("X-Two", "two");
    assert_eq!(h.len(), 2);
    assert_eq!(h.get("X-Two"), Some("two"));
    assert_eq!(h.get("Missing"), None);
    let r = HttpResponse::new("200", Some(h.clone()), Some("h\u{e9}llo w\u{f6}rld".to_string()));
    assert_eq!(r.headers, Some(h));
    assert_eq!(r.length(), 13);
    assert_eq!(
        r.to_text(),
        "HTTP/1.1 200 OK\r\nAccept:*/*\r\nX-Two:two\r\nContent-Length: 13\r\n\r\nh\u{e9}llo w\u{f6}rld"
    );
}

#[test]
fn headers_compare_whatever_the_order_of_insertion() {
    let mut a = Headers::new();
    a.insert("Host", " localhost");
    a.insert("Accept", " */*");
    let mut b = Headers::new();
    b.insert("Accept", " */*");
    b.insert("Host", " localhost");
    assert_eq!(a, b);
}

#[test]
fn send_response_writes_the_text() {
    let r = HttpResponse::new("200", None, Some("ok".to_string()));
    let mut out: Vec<u8> = Vec::new();
    r.send_response(&mut out).unwrap();
    assert_eq!(out, b"HTTP/1.1 200 OK\r\nContent-Type:text/html\r\nContent-Length: 2\r\n\r\nok".to_vec());
}

#[test]
fn content_length_in_decimal() {
    let body = "x".repeat(1205);
    let r = HttpResponse::new("200", None, Some(body.clone()));
    let text = r.to_text();
    assert!(text.contains("\r\nContent-Length: 1205\r\n\r\n"));
    assert!(text.ends_with(&body));
}

#[test]
fn server_keeps_its_address() {
    let server = Server::new("127.0.0.1:3000");
    assert_eq!(server.socket_addr(), "127.0.0.1:3000");
}

#[test]
fn test_read_http() {
    let s: String = String::from("GET /greeting HTTP/1.1\r\nHost: localhost:3000\r\n\
        User-Agent: curl/7.64.1\r\nAccept: */*\r\n\r\n");
    let mut headers_expected = Headers::new();
    headers_expected.insert("Host".into(), " localhost".into());
    headers_expected.insert("Accept".into(), " */*".into());
    headers_expected.insert("User-Agent".into(), " curl/7.64.1".into());
    let req: HttpRequest = s.into();
    assert_eq!(Method::Get, req.method);
    assert_eq!(Version::V1_1, req.version);
    assert_eq!(Resource::Path("/greeting".to_string()), req.resource);
    assert_eq!(headers_expected, req.headers);
}

#[test]
fn request_body_and_line_ends() {
    let req = HttpRequest::parse("POST /api/items  HTTP/2.0\nX: a:b:c\n\nthe body\r");
    assert_eq!(req.method, Method::Post);
    assert_eq!(req.version, Version::V2_0);
    assert_eq!(req.resource, Resource::Path("/api/items".to_string()));
    assert_eq!(req.headers.get("X"), Some(" a"));
    assert_eq!(req.headers.len(), 1);
    // No line feed ends the last line, so its carriage return stays.
    assert_eq!(req.msg_body, "the body\r");
}

#[test]
fn blank_request_and_short_request_line() {
    let req = HttpRequest::parse("");
    assert_eq!(req.method, Method::Uninitialized);
    assert_eq!(req.version, Version::V1_1);
    assert_eq!(req.resource, Resource::Path(String::new()));
    assert_eq!(req.headers.len(), 0);
    assert_eq!(req.msg_body, "");

    // A request line without path and version leaves them as they were.
    let req = HttpRequest::parse("HTTP\n");
    assert_eq!(req.method, Method::Uninitialized);
    assert_eq!(req.resource, Resource::Path(String::new()));
    assert_eq!(req.version, Version::V1_1);

    // A later header line of the same name wins.
    let req = HttpRequest::parse("A:1\r\nA:2\r\n");
    assert_eq!(req.headers.get("A"), Some("2"));
}

#[test]
fn routes() {
    let req = HttpRequest::parse("GET /api/shipping/orders HTTP/1.1\r\n");
    assert!(Router::can_route(&req));
    assert_eq!(Router::route(&req), Handler::WebService);
    let req = HttpRequest::parse("GET /api HTTP/1.1\r\n");
    assert_eq!(Router::route(&req), Handler::WebService);
    let req = HttpRequest::parse("GET /health HTTP/1.1\r\n");
    assert_eq!(Router::route(&req), Handler::StaticPage);
    let req = HttpRequest::parse("GET / HTTP/1.1\r\n");
    assert_eq!(Router::route(&req), Handler::StaticPage);
    let req = HttpRequest::parse("POST /api HTTP/1.1\r\n");
    assert_eq!(Router::route(&req), Handler::PageNotFound);
    let req = HttpRequest::parse("GET index HTTP/1.1\r\n");
    assert!(!Router::can_route(&req));
    let req = HttpRequest::parse("PUT index HTTP/1.1\r\n");
    assert!(Router::can_route(&req));
    assert_eq!(Router::route(&req), Handler::PageNotFound);
}

#[test]
fn tutor_errors_by_kind() {
    let e = TutorError::DBError("connection refused".to_string());
    assert_eq!(e.error_response(), "Database error");
    assert_eq!(e.status_code(), 500);
    let e = TutorError::ActixError("payload".to_string());
    assert_eq!(e.error_response(), "Actix error");
    assert_eq!(e.status_code(), 500);
    let e = TutorError::InvalidInput("no such column".to_string());
    assert_eq!(e.error_response(), "no such column");
    assert_eq!(e.status_code(), 400);
    let e = TutorError::NotFound("Course id not found".to_string());
    assert_eq!(e.error_response(), "Course id not found");
    assert_eq!(e.status_code(), 404);
}
