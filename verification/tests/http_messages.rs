use speedketchup::http::{
    http_body, http_body_overflows, http_get_follow_redirects, http_headers, http_request_head,
    http_status_code, test_download, test_upload, url_host_and_path, HttpError, RedirectStep,
};
use speedketchup::numbers::IntErrorKind;

#[test]
fn status_code_of_status_line() {
    assert_eq!(http_status_code(b"HTTP/1.1 200 OK\r\n\r\n").unwrap(), 200);
    assert_eq!(http_status_code(b"HTTP/1.1 +301 Moved").unwrap(), 301);
    assert!(matches!(http_status_code(b"HTTP/1.1"), Err(HttpError::NoStatusCode)));
    assert!(matches!(http_status_code(b"HTTP/1.1 abc OK"), Err(HttpError::BadNumber(IntErrorKind::InvalidDigit))));
    assert!(matches!(http_status_code(b"HTTP/1.1  200"), Err(HttpError::BadNumber(IntErrorKind::Empty))));
    assert!(matches!(http_status_code(b"HTTP/1.1 4294967296 x"), Err(HttpError::BadNumber(IntErrorKind::PosOverflow))));
    assert!(matches!(http_status_code(b"HTTP/1.1 \xff\xfe x"), Err(HttpError::NotUtf8(_))));
}

#[test]
fn headers_until_first_line_without_cr() {
    let msg = b"HTTP/1.1 200 OK\r\nContent-Type: text/plain\r\nX-Empty: \r\nNoColon\r\n\r\nbody: x\r\nlast: y";
    let hs = http_headers(msg);
    let pairs: Vec<(Vec<u8>, Vec<u8>)> = hs.into_iter().map(|h| (h.name, h.value)).collect();
    assert_eq!(
        pairs,
        vec![
            (b"Content-Type".to_vec(), b"text/plain".to_vec()),
            (b"X-Empty".to_vec(), b"".to_vec()),
            (b"body".to_vec(), b"x".to_vec()),
        ]
    );
    assert!(http_headers(b"\nA: b\r\n").is_empty());
}

#[test]
fn plain_body_follows_blank_line() {
    let msg = b"HTTP/1.1 200 OK\r\nContent-Length: 5\r\n\r\nhello";
    assert!(!http_body_overflows(msg));
    assert_eq!(http_body(msg).unwrap(), b"hello".to_vec());
    assert!(matches!(http_body(b"HTTP/1.1 200 OK\r\n"), Err(HttpError::NoBody)));
}

#[test]
fn chunked_body_is_decoded() {
    let msg = b"HTTP/1.1 200 OK\r\ntransfer-encoding: Chunked\r\n\r\n5\r\nhello\r\n7;x=1\r\n, world\r\n0\r\n\r\n";
    assert_eq!(http_body(msg).unwrap(), b"hello, world".to_vec());
    let ends_without_zero = b"HTTP/1.1 200 OK\r\nTransfer-Encoding: chunked\r\n\r\na\r\n0123456789\r\n";
    assert_eq!(http_body(ends_without_zero).unwrap(), b"0123456789".to_vec());
}

#[test]
fn chunked_body_errors() {
    let head = b"HTTP/1.1 200 OK\r\nTransfer-Encoding: chunked\r\n\r\n".to_vec();
    let with = |rest: &[u8]| {
        let mut m = head.clone();
        m.extend_from_slice(rest);
        m
    };
    assert!(matches!(http_body(&with(b"zz\r\nab\r\n")), Err(HttpError::BadNumber(IntErrorKind::InvalidDigit))));
    assert!(matches!(http_body(&with(b"\r\nab\r\n")), Err(HttpError::BadNumber(IntErrorKind::Empty))));
    assert!(matches!(http_body(&with(b"5")), Err(HttpError::NoChunkStart)));
    assert!(matches!(http_body(&with(b"5\r\nab\r\n")), Err(HttpError::ChunkTooBig)));
    assert!(matches!(http_body(&with(b"\xff\r\nab")), Err(HttpError::NotUtf8(_))));
    assert!(http_body_overflows(&with(b"ffffffffffffffff\r\nab")));
}

#[test]
fn url_splits_into_host_and_path() {
    assert_eq!(url_host_and_path("http://www.example.com/a/b?c"), ("www.example.com", "/a/b?c"));
    assert_eq!(url_host_and_path("host:8080"), ("host:8080", ""));
    assert_eq!(url_host_and_path("https://x"), ("x", ""));
    assert_eq!(url_host_and_path("/only/path"), ("", "/only/path"));
    assert_eq!(url_host_and_path("ä://é/ü"), ("é", "/ü"));
}

#[test]
fn redirects_are_followed_to_location() {
    let moved = b"HTTP/1.1 301 Moved\r\nlocation: https://www.speedtest.net/speedtest-config.php\r\n\r\n";
    match http_get_follow_redirects(moved).unwrap() {
        RedirectStep::Follow { host, path } => {
            assert_eq!(host, "www.speedtest.net");
            assert_eq!(path, "/speedtest-config.php");
        },
        RedirectStep::Done => panic!("expected a redirect"),
    }
    let two = b"HTTP/1.1 302 Found\r\nLocation: http://a/1\r\nLOCATION: http://b/2\r\n\r\n";
    assert!(matches!(http_get_follow_redirects(two).unwrap(), RedirectStep::Follow { ref host, .. } if host == "b"));
    let ok = b"HTTP/1.1 200 OK\r\nLocation: http://a/1\r\n\r\n";
    assert!(matches!(http_get_follow_redirects(ok).unwrap(), RedirectStep::Done));
    let no_location = b"HTTP/1.1 307 Temporary\r\n\r\n";
    assert!(matches!(http_get_follow_redirects(no_location).unwrap(), RedirectStep::Done));
    assert!(matches!(http_get_follow_redirects(b"garbage"), Err(HttpError::NoStatusCode)));
}

#[test]
fn request_head_layout() {
    let head = http_request_head("example.com:8080", "speedtest/upload.php", "POST", "speedketchup/0.1.0", "Content-Length: 5\r\n");
    assert_eq!(
        head,
        b"POST speedtest/upload.php HTTP/1.1\r\nHost: example.com:8080\r\nUser-Agent: speedketchup/0.1.0\r\nAccept: */*\r\nConnection: close\r\nContent-Length: 5\r\n\r\n".to_vec()
    );
}

#[test]
fn download_and_upload_rounds() {
    let sizes = vec![350u32, 500, 750];
    assert_eq!(test_download(&sizes, 0), ("speedtest/random350x350.jpg".to_string(), 1));
    assert_eq!(test_download(&sizes, 2), ("speedtest/random750x750.jpg".to_string(), 2));
    let up = vec![32768u32, 7340032];
    assert_eq!(test_upload(&up, 0), ("Content-Length: 32768\r\n".to_string(), 32768, 1));
    assert_eq!(test_upload(&up, 1), ("Content-Length: 7340032\r\n".to_string(), 7340032, 1));
}

#[test]
fn written_chunks_read_back() {
    let chunks: Vec<Vec<u8>> = vec![b"hello ".to_vec(), vec![b'x'; 300], b"!".to_vec()];
    let mut msg = b"HTTP/1.1 200 OK\r\nServer: s\r\ntransfer-ENCODING: Chunked\r\nX: y\r\n\r\n".to_vec();
    let mut data = Vec::new();
    for c in &chunks {
        msg.extend_from_slice(format!("{:x}\r\n", c.len()).as_bytes());
        msg.extend_from_slice(c);
        msg.extend_from_slice(b"\r\n");
        data.extend_from_slice(c);
    }
    msg.extend_from_slice(b"0\r\n\r\n");
    assert_eq!(http_body(&msg).unwrap(), data);
}
