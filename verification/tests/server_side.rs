use speedketchup::conn::{Connection, RequestError, RECV_BUF_LEN};
use speedketchup::http::{http_request_head, test_download};
use speedketchup::provider::download_sizes;
use speedketchup::results::{chart_rows, chart_rows_stop_check};
use speedketchup::routes::{response_head, route_request, Resource, RouteError};

fn feed(c: &mut Connection, data: &[u8]) {
    assert!(data.len() <= c.read_room());
    c.received(data);
}

#[test]
fn request_with_content_is_taken_whole() {
    let mut c = Connection::new();
    assert_eq!(c.read_room(), RECV_BUF_LEN);
    feed(&mut c, b"POST /status HTTP/1.1\r\nContent-Length: 3\r\n\r\nab");
    assert!(!c.request_overflows());
    assert!(c.next_request().unwrap().is_none());
    feed(&mut c, b"c");
    let r = c.next_request().unwrap().unwrap();
    assert_eq!(r.url, b"/status".to_vec());
    assert_eq!(r.content, b"abc".to_vec());
    assert!(!r.close);
    assert!(!c.finish_overflows());
    c.finish_request();
    assert_eq!(c.bytes_read(), 0);
}

#[test]
fn pipelined_requests_are_carried_over() {
    let mut c = Connection::new();
    feed(&mut c, b"GET /a HTTP/1.1\r\n\r\nGET /b HTTP/1.1\r\nConnection: Close\r\n\r\n");
    let first = c.next_request().unwrap().unwrap();
    assert_eq!(first.url, b"/a".to_vec());
    assert_eq!(first.content, Vec::<u8>::new());
    c.finish_request();
    let second = c.next_request().unwrap().unwrap();
    assert_eq!(second.url, b"/b".to_vec());
    assert!(second.close);
}

#[test]
fn bad_requests_are_refused() {
    let mut c = Connection::new();
    feed(&mut c, b"PUT / HTTP/1.1\r\n\r\n");
    assert_eq!(c.next_request().unwrap_err(), RequestError::BadMethod);
    let mut c = Connection::new();
    // the method field runs up to the first space, here through the blank line
    feed(&mut c, b"GET\r\n\r\n");
    assert_eq!(c.next_request().unwrap_err(), RequestError::BadMethod);
    // without a complete header the request is taken at once, and has no method
    let mut c = Connection::new();
    feed(&mut c, b"GET / HTTP/1.1\r\n");
    assert_eq!(c.next_request().unwrap_err(), RequestError::BadMethod);
}

#[test]
fn oversized_content_length_is_detected() {
    let mut c = Connection::new();
    feed(&mut c, b"GET / HTTP/1.1\r\nContent-Length: 18446744073709551615\r\n\r\n");
    assert!(c.request_overflows() == (usize::MAX as u128 == u64::MAX as u128));
}

#[test]
fn paths_are_routed() {
    let (r, text) = route_request(b"/", b"").unwrap();
    assert!(matches!(r.resource, Resource::IndexHtml));
    assert_eq!(r.content_type, "text/html; charset=utf-8");
    assert_eq!(text, "");
    let (r, text) = route_request(b"/status", b"{ \"state\":\"idle\" }").unwrap();
    assert!(matches!(r.resource, Resource::Status));
    assert_eq!(text, "{ \"state\":\"idle\" }");
    let (r, _) = route_request(b"/speedtest/random350x350.jpg", b"").unwrap();
    assert!(matches!(r.resource, Resource::Text("")));
    assert_eq!(r.additional_bytes, 245388);
    let (r, _) = route_request(b"/speedtest/upload.php/random4000x4000.jpg", b"").unwrap();
    assert_eq!(r.additional_bytes, 31625365);
    let (r, _) = route_request(b"/speedtest/latency.txt", b"").unwrap();
    assert!(matches!(r.resource, Resource::Text("test=test")));
    let (r, _) = route_request(b"/nope", b"").unwrap();
    assert!(matches!(r.resource, Resource::NotFound));
    assert_eq!(r.content_type, "text/html");
    let (r, _) = route_request(b"data.js", b"").unwrap();
    assert!(matches!(r.resource, Resource::DataJs));
    assert!(matches!(route_request(b"/\xff", b""), Err(RouteError::BadUrl(_))));
    assert!(matches!(route_request(b"/", b"\xff"), Err(RouteError::BadContent(_))));
}

#[test]
fn response_head_layout() {
    assert_eq!(
        response_head("text/plain", 9),
        b"HTTP/1.1 200 OK\r\nContent-Type: text/plain\r\nContent-Length: 9\r\n\r\n".to_vec()
    );
}

#[test]
fn results_file_rows() {
    let data = b"Timestamp,LatencyIdle(ms),LatencyDownload(ms),LatencyUpload(ms),Download(Mbps),Upload(Mbps),ClientPublicIP,ClientISP,ServerDescr,ServerHost,Error\n\
1970.01.01-00:01:00,12.3,45.6,78.9,100,20,1.2.3.4,\"isp\",\"d\",h,\n\
short,1\n\
bad.01.01-00:00:00,1,2,3,4,5\n\
1970.01.02-00:00:00,,,,,,,,,,\"error\"\r\n";
    assert!(!chart_rows_stop_check(data));
    let rows = chart_rows(data).unwrap();
    assert_eq!(rows.len(), 2);
    assert_eq!(rows[0].time, 60);
    assert_eq!(rows[0].fields.len(), 6);
    assert_eq!(rows[0].fields[1], b"12.3".to_vec());
    assert_eq!(rows[1].time, 86400);
    assert_eq!(rows[1].fields[5], Vec::<u8>::new());
    assert!(chart_rows(b"\xff\n").is_err());
    assert!(chart_rows_stop_check(b"head\n2024.01-00:00:00,1,2,3\n"));
    assert!(chart_rows(b"").unwrap().is_empty());
}

#[test]
fn client_requests_are_served_by_the_own_server() {
    let sizes = download_sizes();
    for i in 0..sizes.len() {
        let (path, _) = test_download(&sizes, i);
        let head = http_request_head("speed.example.net:8080", &path, "GET", "speedketchup/0.1.0", "Cache-Control: no-cache\r\n");
        let mut c = Connection::new();
        feed(&mut c, &head);
        let req = c.next_request().unwrap().unwrap();
        assert_eq!(req.url, path.as_bytes().to_vec());
        assert!(req.content.is_empty());
        assert!(req.close);
        let (route, _) = route_request(&req.url, &req.content).unwrap();
        assert!(route.additional_bytes > 0);
    }
    let head = http_request_head("h", "speedtest/latency.txt", "GET", "ua", "");
    let mut c = Connection::new();
    feed(&mut c, &head);
    let req = c.next_request().unwrap().unwrap();
    let (route, _) = route_request(&req.url, &req.content).unwrap();
    assert!(matches!(route.resource, Resource::Text("test=test")));
}
