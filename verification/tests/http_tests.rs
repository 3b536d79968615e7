use iris_parsers::http::{parse_request, parse_response, HttpParse, IrisHttpRequest, IrisHttpResponse};

fn request(data: &[u8]) -> HttpParse<IrisHttpRequest> {
    parse_request(data)
}

fn response(data: &[u8]) -> HttpParse<IrisHttpResponse> {
    parse_response(data)
}

fn expect_request(data: &[u8]) -> IrisHttpRequest {
    match request(data) {
        HttpParse::Complete(r) => r,
        HttpParse::Incomplete => panic!("unexpectedly incomplete"),
        HttpParse::Malformed => panic!("unexpectedly malformed"),
    }
}

fn expect_response(data: &[u8]) -> IrisHttpResponse {
    match response(data) {
        HttpParse::Complete(r) => r,
        HttpParse::Incomplete => panic!("unexpectedly incomplete"),
        HttpParse::Malformed => panic!("unexpectedly malformed"),
    }
}

#[test]
fn parse_simple_get() {
    let data = b"GET /path HTTP/1.1\r\nHost: example.com\r\n\r\n";
    let req = expect_request(data);
    assert_eq!(req.method.data, b"GET".to_vec());
    assert_eq!(req.path.data, b"/path".to_vec());
    assert_eq!(req.version_minor, 1);
    assert_eq!(req.headers.len(), 1);
    assert_eq!(req.headers[0].name.data, b"Host".to_vec());
    assert_eq!(req.headers[0].value.data, b"example.com".to_vec());
    assert_eq!(req.content_length, -1);
    assert!(!req.is_chunked);
    assert_eq!(req.header_end_index, data.len());
}

#[test]
fn parse_post_with_content_length() {
    let data = b"POST /api/users HTTP/1.1\r\nHost: api.example.com\r\nContent-Type: application/json\r\nContent-Length: 23\r\n\r\n{\"name\": \"test user\"}";
    let req = expect_request(data);
    assert_eq!(req.method.data, b"POST".to_vec());
    assert_eq!(req.path.data, b"/api/users".to_vec());
    assert_eq!(req.content_length, 23);
    assert!(!req.is_chunked);
    assert_eq!(req.headers.len(), 3);
}

#[test]
fn parse_chunked_request() {
    let data = b"POST /upload HTTP/1.1\r\nHost: example.com\r\nTransfer-Encoding: chunked\r\n\r\n";
    let req = expect_request(data);
    assert!(req.is_chunked);
    assert_eq!(req.content_length, -1);
}

#[test]
fn parse_connect_request() {
    let data = b"CONNECT example.com:443 HTTP/1.1\r\nHost: example.com:443\r\n\r\n";
    let req = expect_request(data);
    assert_eq!(req.method.data, b"CONNECT".to_vec());
    assert_eq!(req.path.data, b"example.com:443".to_vec());
}

#[test]
fn incomplete_request_returns_minus_one() {
    let data = b"GET /path HTTP/1.1\r\nHost: example.com\r\n";
    assert!(matches!(request(data), HttpParse::Incomplete));
}

#[test]
fn parse_request_with_query_params() {
    let data = b"GET /search?q=test&page=1&limit=10 HTTP/1.1\r\nHost: example.com\r\n\r\n";
    let req = expect_request(data);
    assert_eq!(req.path.data, b"/search?q=test&page=1&limit=10".to_vec());
}

#[test]
fn parse_multiple_headers() {
    let data = b"GET /api HTTP/1.1\r\nHost: api.example.com\r\nUser-Agent: Test/1.0\r\nAccept: application/json\r\nAuthorization: Bearer tok\r\nCache-Control: no-cache\r\n\r\n";
    let req = expect_request(data);
    assert_eq!(req.headers.len(), 5);
    assert_eq!(req.headers[0].name.data, b"Host".to_vec());
    assert_eq!(req.headers[1].name.data, b"User-Agent".to_vec());
    assert_eq!(req.headers[2].name.data, b"Accept".to_vec());
    assert_eq!(req.headers[3].name.data, b"Authorization".to_vec());
    assert_eq!(req.headers[4].name.data, b"Cache-Control".to_vec());
}

#[test]
fn parse_200_response() {
    let data = b"HTTP/1.1 200 OK\r\nContent-Type: text/html\r\nContent-Length: 13\r\n\r\nHello, World!";
    let resp = expect_response(data);
    assert_eq!(resp.status_code, 200);
    assert_eq!(resp.reason.data, b"OK".to_vec());
    assert_eq!(resp.version_minor, 1);
    assert_eq!(resp.content_length, 13);
    assert!(resp.has_body);
    assert!(resp.has_framing);
    assert!(!resp.should_close);
}

#[test]
fn parse_404_response() {
    let data = b"HTTP/1.1 404 Not Found\r\nContent-Type: text/plain\r\n\r\n";
    let resp = expect_response(data);
    assert_eq!(resp.status_code, 404);
    assert_eq!(resp.reason.data, b"Not Found".to_vec());
}

#[test]
fn parse_204_no_body() {
    let data = b"HTTP/1.1 204 No Content\r\n\r\n";
    let resp = expect_response(data);
    assert_eq!(resp.status_code, 204);
    assert!(!resp.has_body);
}

#[test]
fn parse_304_no_body() {
    let data = b"HTTP/1.1 304 Not Modified\r\n\r\n";
    let resp = expect_response(data);
    assert!(!resp.has_body);
}

#[test]
fn parse_chunked_response() {
    let data = b"HTTP/1.1 200 OK\r\nTransfer-Encoding: chunked\r\n\r\n";
    let resp = expect_response(data);
    assert!(resp.is_chunked);
    assert_eq!(resp.content_length, -1);
    assert!(resp.has_framing);
}

#[test]
fn parse_response_no_reason() {
    let data = b"HTTP/1.1 204\r\n\r\n";
    let resp = expect_response(data);
    assert_eq!(resp.status_code, 204);
    assert_eq!(resp.reason.data, b"".to_vec());
}

#[test]
fn incomplete_response_returns_minus_one() {
    let data = b"HTTP/1.1 200 OK\r\nContent-Type: text/html\r\n";
    assert!(matches!(response(data), HttpParse::Incomplete));
}

#[test]
fn connection_close_detected() {
    let data = b"HTTP/1.1 200 OK\r\nConnection: close\r\nContent-Length: 0\r\n\r\n";
    let resp = expect_response(data);
    assert!(resp.should_close);
}

#[test]
fn http10_defaults_to_close() {
    let data = b"HTTP/1.0 200 OK\r\nContent-Length: 0\r\n\r\n";
    let resp = expect_response(data);
    assert_eq!(resp.version_minor, 0);
    assert!(resp.should_close);
}

#[test]
fn http10_keepalive_not_close() {
    let data = b"HTTP/1.0 200 OK\r\nConnection: keep-alive\r\nContent-Length: 0\r\n\r\n";
    let resp = expect_response(data);
    assert!(!resp.should_close);
}

#[test]
fn duplicate_content_length_rejected() {
    let data = b"HTTP/1.1 200 OK\r\nContent-Length: 10\r\nContent-Length: 20\r\n\r\n";
    assert!(matches!(response(data), HttpParse::Malformed));
}

#[test]
fn oversized_content_length_rejected() {
    let data = b"POST /big HTTP/1.1\r\nHost: x\r\nContent-Length: 999999999\r\n\r\n";
    assert!(matches!(request(data), HttpParse::Malformed));
}

#[test]
fn null_data_returns_error() {
    assert!(matches!(request(b""), HttpParse::Malformed));
}

#[test]
fn multiple_set_cookie_headers() {
    let data = b"HTTP/1.1 200 OK\r\nSet-Cookie: session=abc; Path=/\r\nSet-Cookie: user=john; HttpOnly\r\nContent-Type: text/html\r\n\r\n";
    let resp = expect_response(data);
    assert_eq!(resp.headers.len(), 3);
    let mut cookie_count = 0;
    for h in &resp.headers {
        if h.name.data == b"Set-Cookie".to_vec() {
            cookie_count += 1;
        }
    }
    assert_eq!(cookie_count, 2);
}

#[test]
fn parse_301_redirect() {
    let data = b"HTTP/1.1 301 Moved Permanently\r\nLocation: https://new.example.com/\r\n\r\n";
    let resp = expect_response(data);
    assert_eq!(resp.status_code, 301);
    assert_eq!(resp.headers[0].value.data, b"https://new.example.com/".to_vec());
}

#[test]
fn chunked_overrides_content_length() {
    // RFC 7230 section 3.3.3: Transfer-Encoding overrides Content-Length
    let data = b"HTTP/1.1 200 OK\r\nContent-Length: 100\r\nTransfer-Encoding: chunked\r\n\r\n";
    let resp = expect_response(data);
    assert!(resp.is_chunked);
    assert_eq!(resp.content_length, -1);
}

#[test]
fn slice_captures_bytes() {
    let s = iris_parsers::http::IrisSlice::from_bytes(b"abc");
    assert_eq!(s.data, b"abc".to_vec());
}

#[test]
fn minimal_get_all_fields() {
    let data = b"GET /x HTTP/1.1\r\nHost: h\r\n\r\n";
    let req = expect_request(data);
    assert_eq!(req.method.data, b"GET".to_vec());
    assert_eq!(req.path.data, b"/x".to_vec());
    assert_eq!(req.version_minor, 1);
    assert_eq!(req.header_end_index, data.len());
    assert_eq!(req.content_length, -1);
    assert!(!req.is_chunked);
    assert_eq!(req.headers.len(), 1);
}

#[test]
fn duplicate_identical_content_length_tolerated() {
    let data = b"HTTP/1.1 200 OK\r\nContent-Length: 10\r\nContent-Length: 10\r\n\r\n";
    let resp = expect_response(data);
    assert_eq!(resp.content_length, 10);
}

#[test]
fn conflicting_content_length_rejected_even_when_chunked() {
    let data = b"HTTP/1.1 200 OK\r\nContent-Length: 10\r\nContent-Length: 20\r\nTransfer-Encoding: chunked\r\n\r\n";
    assert!(matches!(response(data), HttpParse::Malformed));
}

#[test]
fn chunked_token_found_in_encoding_list() {
    let data = b"POST /u HTTP/1.1\r\nTransfer-Encoding: gzip, chunked\r\n\r\n";
    let req = expect_request(data);
    assert!(req.is_chunked);
}

#[test]
fn chunked_token_case_insensitive() {
    let data = b"POST /u HTTP/1.1\r\ntransfer-encoding: CHUNKED\r\n\r\n";
    let req = expect_request(data);
    assert!(req.is_chunked);
}

#[test]
fn non_numeric_content_length_ignored() {
    let data = b"HTTP/1.1 200 OK\r\nContent-Length: abc\r\n\r\n";
    let resp = expect_response(data);
    assert_eq!(resp.content_length, -1);
    assert!(!resp.has_framing);
}

#[test]
fn content_length_at_cap_accepted() {
    let data = b"HTTP/1.1 200 OK\r\nContent-Length: 104857600\r\n\r\n";
    let resp = expect_response(data);
    assert_eq!(resp.content_length, 104857600);
    let over = b"HTTP/1.1 200 OK\r\nContent-Length: 104857601\r\n\r\n";
    assert!(matches!(response(over), HttpParse::Malformed));
}

#[test]
fn http11_with_other_connection_value_keeps_open() {
    let data = b"HTTP/1.1 200 OK\r\nConnection: upgrade\r\nContent-Length: 0\r\n\r\n";
    let resp = expect_response(data);
    assert!(!resp.should_close);
}

#[test]
fn response_without_framing_closes_by_length() {
    let data = b"HTTP/1.1 200 OK\r\nContent-Type: text/plain\r\n\r\n";
    let resp = expect_response(data);
    assert!(!resp.has_framing);
    assert!(resp.has_body);
}

#[test]
fn garbage_request_line_malformed() {
    let data = b"NOT AN HTTP MESSAGE\r\n\r\n";
    assert!(matches!(request(data), HttpParse::Malformed));
}

#[test]
fn header_end_index_correct() {
    let data = b"GET / HTTP/1.1\r\nHost: x\r\n\r\nBODY";
    let req = expect_request(data);
    // header_end_index points right after the blank line, at 'B'
    assert_eq!(&data[req.header_end_index..], b"BODY");
}
