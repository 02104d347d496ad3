use biosurf::http_text::{ChunkStep, HttpError, HttpRequest, HttpResponse, chunked_step};

#[test]
fn test_build_request_exact_text() {
    let mut request = HttpRequest::new("GET", "/api/data");
    request.add_header("User-Agent", "Machine-HTTP/1.0");
    let text = request.build("example.com");
    assert_eq!(
        text,
        "GET /api/data HTTP/1.1\r\nHost: example.com\r\nConnection: keep-alive\r\nUser-Agent: Machine-HTTP/1.0\r\n\r\n"
    );
}

#[test]
fn test_build_request_with_body() {
    let mut request = HttpRequest::new("POST", "/submit");
    request.set_body("hi");
    request.add_header("X-A", "b");
    let text = request.build("example.com");
    assert_eq!(
        text,
        "POST /submit HTTP/1.1\r\nHost: example.com\r\nConnection: keep-alive\r\nContent-Length: 2\r\nX-A: b\r\n\r\nhi"
    );
}

#[test]
fn test_parse_plain_response() {
    let response = HttpResponse::parse(
        "HTTP/1.1 200 OK\r\nContent-Type: text/html\r\nX-Thing: v\r\n\r\nhello",
    )
    .unwrap();
    assert_eq!(response.status, 200);
    assert_eq!(response.status_text, "OK");
    assert_eq!(
        response.headers,
        vec![
            ("content-type".to_string(), "text/html".to_string()),
            ("x-thing".to_string(), "v".to_string()),
        ]
    );
    assert_eq!(response.body, "hello");
}

#[test]
fn test_parse_status_text_rejoined() {
    let response = HttpResponse::parse("HTTP/1.1 404 Not Found\r\n\r\n").unwrap();
    assert_eq!(response.status, 404);
    assert_eq!(response.status_text, "Not Found");
    assert_eq!(response.body, "");
}

#[test]
fn test_parse_chunked_response() {
    let response = HttpResponse::parse(
        "HTTP/1.1 200 OK\r\nTransfer-Encoding: chunked\r\n\r\n5\r\nhello\r\n6\r\n world\r\n0\r\n\r\n",
    )
    .unwrap();
    assert_eq!(response.status, 200);
    assert_eq!(response.body, "hello world");
}

#[test]
fn test_parse_errors() {
    assert!(matches!(HttpResponse::parse(""), Err(HttpError::EmptyResponse)));
    assert!(matches!(
        HttpResponse::parse("   \r\nrest"),
        Err(HttpError::InvalidStatusLine)
    ));
    assert!(matches!(
        HttpResponse::parse("HTTP/1.1\r\n\r\n"),
        Err(HttpError::MissingStatusCode)
    ));
    assert!(matches!(
        HttpResponse::parse("HTTP/1.1 abc OK\r\n\r\n"),
        Err(HttpError::InvalidStatusCode)
    ));
    assert!(matches!(
        HttpResponse::parse("HTTP/1.1 99999 Huge\r\n\r\n"),
        Err(HttpError::InvalidStatusCode)
    ));
}

#[test]
fn test_decode_chunked_body_exact() {
    assert_eq!(
        HttpResponse::decode_chunked_body("5\r\nhello\r\n0\r\n\r\n").unwrap(),
        "hello"
    );
    // a chunk extension after a semicolon is ignored
    assert_eq!(
        HttpResponse::decode_chunked_body("5;name=v\r\nhello\r\n0\r\n\r\n").unwrap(),
        "hello"
    );
    // sizes are hexadecimal
    assert_eq!(
        HttpResponse::decode_chunked_body("a\r\n0123456789\r\n0\r\n\r\n").unwrap(),
        "0123456789"
    );
}

#[test]
fn test_decode_chunked_body_errors() {
    assert_eq!(
        HttpResponse::decode_chunked_body("zz\r\nhello\r\n"),
        Err(HttpError::InvalidChunkSize)
    );
    assert_eq!(
        HttpResponse::decode_chunked_body("5\r\nhel"),
        Err(HttpError::IncompleteChunk)
    );
    assert_eq!(
        HttpResponse::decode_chunked_body("no terminator"),
        Err(HttpError::MalformedChunkedBody)
    );
}

#[test]
fn test_chunked_step() {
    // not even a whole size line yet
    assert!(matches!(chunked_step("5"), Ok(ChunkStep::NeedMore)));
    // a size line but a short chunk
    assert!(matches!(chunked_step("5\r\nhel"), Ok(ChunkStep::NeedMore)));
    // one whole chunk
    match chunked_step("5\r\nhello\r\nrest").unwrap() {
        ChunkStep::Chunk { data, consumed } => {
            assert_eq!(data, "hello");
            assert_eq!(consumed, 10);
        }
        other => panic!("expected a chunk, got {:?}", other),
    }
    // the terminating chunk
    assert!(matches!(chunked_step("0\r\n\r\n"), Ok(ChunkStep::Done)));
    // an unreadable size
    assert!(matches!(
        chunked_step("xyz\r\n"),
        Err(HttpError::InvalidChunkSize)
    ));
}
