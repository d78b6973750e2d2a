use bencode::InsertOrderMap;
use bencode::http::get_content;
use bencode::http::get_host_and_path;
use bencode::http_body::handle_http_body;
use bencode::http_body::handle_http_chunked_body;
use bencode::http_headers::HttpHeaders;
use bencode::http_headers::State;
use bencode::http_headers::handle_http_headers;

#[test]
fn handle_next_http_normal_appends() {
    let mut output = String::new();
    let mut headers = HttpHeaders::new();
    headers.handle_next_http(&mut output, b'A');

    assert_eq!(1, output.len());
    assert!(matches!(headers.state, State::Status));
    assert!(!headers.carriage_return);
    assert_eq!("A", &output);
}

#[test]
fn handle_next_http_cr() {
    let mut output = String::new();
    let mut headers = HttpHeaders::new();
    headers.handle_next_http(&mut output, 13u8);

    assert!(output.is_empty());
    assert!(matches!(headers.state, State::Status));
    assert!(headers.carriage_return);
}

#[test]
fn handle_next_http_cr_lf() {
    let mut output = "a".to_string();
    let mut headers = HttpHeaders::new();
    headers.carriage_return = true;

    headers.handle_next_http(&mut output, 10u8);

    assert_eq!(1, output.len());
    assert_eq!("a", output);
    assert!(matches!(headers.state, State::HeaderNext));
    assert!(!headers.carriage_return);
}

#[test]
fn handle_next_http_empty() {
    let mut output = String::new();
    let mut headers = HttpHeaders::new();
    headers.state = State::HeaderNext;
    headers.carriage_return = true;

    headers.handle_next_http(&mut output, 10u8);

    assert!(output.is_empty());
    assert!(matches!(headers.state, State::Body));
    assert!(!headers.carriage_return);
}

#[test]
fn handle_next_http_header() {
    let mut output = String::new();
    let mut headers = HttpHeaders::new();
    headers.state = State::HeaderNext;
    headers.carriage_return = true;

    headers.handle_next_http(&mut output, b'A');

    assert_eq!(1, output.len());
    assert!(matches!(headers.state, State::Header));
    assert!(!headers.carriage_return);
}

#[test]
fn handle_http_headers_consumes_all() {
    let buffer = "HTTP/1.1 200 OK\r
Server: nginx\r
Date: Wed, 08 Apr 2020 15:23:09 GMT\r
Transfer-Encoding: chunked\r
Connection: keep-alive\r
\r
"
        .as_bytes()
        .to_vec();

    let (headers, consumed) = handle_http_headers(&buffer);

    assert_eq!("HTTP/1.1 200 OK", headers.protocol);
    assert!(headers.headers.get(&"server".to_string()).is_some());
    assert!(headers.headers.get(&"date".to_string()).is_some());
    assert!(headers.headers.get(&"transfer-encoding".to_string()).is_some());
    assert!(headers.headers.get(&"connection".to_string()).is_some());

    assert_eq!("nginx", headers.headers.get(&"server".to_string()).unwrap());
    assert_eq!(
        "Wed, 08 Apr 2020 15:23:09 GMT",
        headers.headers.get(&"date".to_string()).unwrap()
    );
    assert_eq!(
        "chunked",
        headers.headers.get(&"transfer-encoding".to_string()).unwrap()
    );
    assert_eq!(
        "keep-alive",
        headers.headers.get(&"connection".to_string()).unwrap()
    );

    assert_eq!(buffer.len(), consumed);
    assert!(matches!(headers.state, State::Body));
}

#[test]
fn handle_http_body_reads_plain() {
    let headers: InsertOrderMap<String> = InsertOrderMap::new();
    let content = "body".as_bytes().to_vec();

    let result = handle_http_body(&headers, &content, 0).unwrap();

    assert_eq!(vec![b'b', b'o', b'd', b'y'], result);
}

#[test]
fn handle_http_body_reads_at_most_content_length() {
    let mut headers: InsertOrderMap<String> = InsertOrderMap::new();
    headers.insert("content-length".to_string(), "4".to_string());
    let content = "body123".as_bytes().to_vec();

    let result = handle_http_body(&headers, &content, 0).unwrap();

    assert_eq!(vec![b'b', b'o', b'd', b'y'], result);
}

#[test]
fn handle_http_chunked_body_works() {
    let input = "4\r
Wiki\r
5\r
pedia\r
E\r
 in\r
\r
chunks.\r
0\r
\r\n"
        .as_bytes()
        .to_vec();
    let result = handle_http_chunked_body(&input, 0).unwrap();
    assert_eq!(b"Wikipedia in\r\n\r\nchunks.".to_vec(), result);
}

#[test]
fn get_host_and_path_splits_correct() {
    let (host, path) = get_host_and_path("http://tracker.archlinux.org:6969/announce").unwrap();

    assert_eq!("tracker.archlinux.org:6969", host);
    assert_eq!("/announce", path);
}

#[test]
fn get_content_returns_correct() {
    let input = b"one\r\ntwo\r\nthree\r\n\r\nfour
five
six\r\nseven\r\n\r\neight"
        .to_vec();
    let content = get_content(&input);
    assert_eq!(
        b"four
five
six\r\nseven\r\n\r\neight"
            .to_vec(),
        content
    );
}
