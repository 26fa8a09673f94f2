//! What the built-in web server answers to each path, and the head of its
//! responses.

use vstd::prelude::*;
use vstd::utf8::*;
use vstd::string::*;
use std::str::Utf8Error;
use crate::bytes::{bytes_eq, push_str};
use crate::numbers::{decimal, push_decimal};
use crate::text::{str_eq, str_from_utf8};

verus! {

/// What a path asks for.
#[derive(Debug, Clone, Copy)]
pub enum Resource {
    /// The chart page.
    IndexHtml,
    /// The page icon.
    FaviconSvg,
    /// The chart script.
    UplotJs,
    /// The chart style sheet.
    UplotCss,
    /// The stored results as a script.
    DataJs,
    /// The current state, waited on while it equals the request content.
    Status,
    /// Ask for a test to start now.
    Start,
    /// Withdraw a request for a test.
    Stop,
    /// A fixed text.
    Text(&'static str),
    /// An unknown path, answered with the text `404`.
    NotFound,
}

pub ghost enum ResourceView {
    IndexHtml,
    FaviconSvg,
    UplotJs,
    UplotCss,
    DataJs,
    Status,
    Start,
    Stop,
    Text(Seq<char>),
    NotFound,
}

impl View for Resource {
    type V = ResourceView;

    open spec fn view(&self) -> ResourceView {
        match self {
            Resource::IndexHtml => ResourceView::IndexHtml,
            Resource::FaviconSvg => ResourceView::FaviconSvg,
            Resource::UplotJs => ResourceView::UplotJs,
            Resource::UplotCss => ResourceView::UplotCss,
            Resource::DataJs => ResourceView::DataJs,
            Resource::Status => ResourceView::Status,
            Resource::Start => ResourceView::Start,
            Resource::Stop => ResourceView::Stop,
            Resource::Text(t) => ResourceView::Text(t@),
            Resource::NotFound => ResourceView::NotFound,
        }
    }
}

/// The answer to a path: what to send, its content type, and how many
/// zero bytes follow it (test downloads).
#[derive(Debug, Clone, Copy)]
pub struct Route {
    pub resource: Resource,
    pub content_type: &'static str,
    pub additional_bytes: usize,
}

pub ghost struct RouteView {
    pub resource: ResourceView,
    pub content_type: Seq<char>,
    pub additional_bytes: int,
}

impl View for Route {
    type V = RouteView;

    open spec fn view(&self) -> RouteView {
        RouteView { resource: self.resource@, content_type: self.content_type@, additional_bytes: self.additional_bytes as int }
    }
}

pub open spec fn rv(resource: ResourceView, content_type: Seq<char>, additional_bytes: int) -> RouteView {
    RouteView { resource, content_type, additional_bytes }
}

/// Size of the test image `random{n}x{n}.jpg`, for the sizes the server offers.
pub open spec fn image_size(name: Seq<u8>) -> Option<int> {
    if name == "random350x350.jpg".spec_bytes() { Some(245388) }
    else if name == "random500x500.jpg".spec_bytes() { Some(505544) }
    else if name == "random750x750.jpg".spec_bytes() { Some(1118012) }
    else if name == "random1000x1000.jpg".spec_bytes() { Some(1986284) }
    else if name == "random1500x1500.jpg".spec_bytes() { Some(4468241) }
    else if name == "random2000x2000.jpg".spec_bytes() { Some(7907740) }
    else if name == "random2500x2500.jpg".spec_bytes() { Some(12407926) }
    else if name == "random3000x3000.jpg".spec_bytes() { Some(17816816) }
    else if name == "random3500x3500.jpg".spec_bytes() { Some(24262167) }
    else if name == "random4000x4000.jpg".spec_bytes() { Some(31625365) }
    else { None }
}

/// The size of the test image that path `p` names under directory `dir`.
pub open spec fn image_under_spec(p: Seq<u8>, dir: Seq<u8>) -> Option<int> {
    if p.len() >= dir.len() && p.take(dir.len() as int) == dir { image_size(p.skip(dir.len() as int)) } else { None }
}

/// The answer to path `p` (without its leading `/`).
pub open spec fn route_spec(p: Seq<u8>) -> RouteView {
    if p.len() == 0 { rv(ResourceView::IndexHtml, "text/html; charset=utf-8"@, 0) }
    else if p == "favicon.svg".spec_bytes() { rv(ResourceView::FaviconSvg, "image/svg+xml"@, 0) }
    else if p == "uplot.js".spec_bytes() { rv(ResourceView::UplotJs, "text/javascript"@, 0) }
    else if p == "uplot.css".spec_bytes() { rv(ResourceView::UplotCss, "text/css"@, 0) }
    else if p == "data.js".spec_bytes() { rv(ResourceView::DataJs, "text/javascript"@, 0) }
    else if p == "status".spec_bytes() { rv(ResourceView::Status, "text/plain"@, 0) }
    else if p == "start".spec_bytes() { rv(ResourceView::Start, "text/plain"@, 0) }
    else if p == "stop".spec_bytes() { rv(ResourceView::Stop, "text/plain"@, 0) }
    else if p == "speedtest/latency.txt".spec_bytes() { rv(ResourceView::Text("test=test"@), "text/plain"@, 0) }
    else if p == "speedtest/upload.php".spec_bytes() { rv(ResourceView::Text(""@), "text/plain"@, 0) }
    else if image_under_spec(p, "speedtest/".spec_bytes()) is Some {
        rv(ResourceView::Text(""@), "text/plain"@, image_under_spec(p, "speedtest/".spec_bytes()).unwrap())
    } else if image_under_spec(p, "speedtest/upload.php/".spec_bytes()) is Some {
        rv(ResourceView::Text(""@), "text/plain"@, image_under_spec(p, "speedtest/upload.php/".spec_bytes()).unwrap())
    } else { rv(ResourceView::NotFound, "text/html"@, 0) }
}

/// A URL without one leading `/`.
pub open spec fn strip_slash(u: Seq<u8>) -> Seq<u8> {
    if u.len() > 0 && u[0] == 47 { u.drop_first() } else { u }
}

/// Why a request could not be routed.
#[derive(Debug)]
pub enum RouteError {
    /// The URL is not UTF-8.
    BadUrl(Utf8Error),
    /// The request content is not UTF-8.
    BadContent(Utf8Error),
}

fn image_size_exec(name: &[u8]) -> (r: Option<usize>)
    ensures
        r matches Some(n) ==> image_size(name@) == Some(n as int),
        r is None ==> image_size(name@) is None,
{
    if bytes_eq(name, "random350x350.jpg".as_bytes()) { Some(245388) }
    else if bytes_eq(name, "random500x500.jpg".as_bytes()) { Some(505544) }
    else if bytes_eq(name, "random750x750.jpg".as_bytes()) { Some(1118012) }
    else if bytes_eq(name, "random1000x1000.jpg".as_bytes()) { Some(1986284) }
    else if bytes_eq(name, "random1500x1500.jpg".as_bytes()) { Some(4468241) }
    else if bytes_eq(name, "random2000x2000.jpg".as_bytes()) { Some(7907740) }
    else if bytes_eq(name, "random2500x2500.jpg".as_bytes()) { Some(12407926) }
    else if bytes_eq(name, "random3000x3000.jpg".as_bytes()) { Some(17816816) }
    else if bytes_eq(name, "random3500x3500.jpg".as_bytes()) { Some(24262167) }
    else if bytes_eq(name, "random4000x4000.jpg".as_bytes()) { Some(31625365) }
    else { None }
}

fn image_under(p: &[u8], prefix: &str) -> (r: Option<usize>)
    ensures
        r matches Some(n) ==> image_under_spec(p@, prefix.spec_bytes()) == Some(n as int),
        r is None ==> image_under_spec(p@, prefix.spec_bytes()) is None,
{
    let pre = prefix.as_bytes();
    let k = pre.len();
    let n = p.len();
    if n < k {
        return None;
    }
    assert(p@.subrange(0, k as int) =~= p@.take(k as int));
    assert(p@.subrange(k as int, n as int) =~= p@.skip(k as int));
    if !bytes_eq(&p[0..k], pre) {
        return None;
    }
    image_size_exec(&p[k..n])
}

fn route_path(p: &[u8]) -> (r: Route)
    ensures
        r@ == route_spec(p@),
{
    let plain = "text/plain";
    if p.len() == 0 {
        Route { resource: Resource::IndexHtml, content_type: "text/html; charset=utf-8", additional_bytes: 0 }
    } else if bytes_eq(p, "favicon.svg".as_bytes()) {
        Route { resource: Resource::FaviconSvg, content_type: "image/svg+xml", additional_bytes: 0 }
    } else if bytes_eq(p, "uplot.js".as_bytes()) {
        Route { resource: Resource::UplotJs, content_type: "text/javascript", additional_bytes: 0 }
    } else if bytes_eq(p, "uplot.css".as_bytes()) {
        Route { resource: Resource::UplotCss, content_type: "text/css", additional_bytes: 0 }
    } else if bytes_eq(p, "data.js".as_bytes()) {
        Route { resource: Resource::DataJs, content_type: "text/javascript", additional_bytes: 0 }
    } else if bytes_eq(p, "status".as_bytes()) {
        Route { resource: Resource::Status, content_type: plain, additional_bytes: 0 }
    } else if bytes_eq(p, "start".as_bytes()) {
        Route { resource: Resource::Start, content_type: plain, additional_bytes: 0 }
    } else if bytes_eq(p, "stop".as_bytes()) {
        Route { resource: Resource::Stop, content_type: plain, additional_bytes: 0 }
    } else if bytes_eq(p, "speedtest/latency.txt".as_bytes()) {
        Route { resource: Resource::Text("test=test"), content_type: plain, additional_bytes: 0 }
    } else if bytes_eq(p, "speedtest/upload.php".as_bytes()) {
        Route { resource: Resource::Text(""), content_type: plain, additional_bytes: 0 }
    } else if let Some(n) = image_under(p, "speedtest/") {
        Route { resource: Resource::Text(""), content_type: plain, additional_bytes: n }
    } else if let Some(n) = image_under(p, "speedtest/upload.php/") {
        Route { resource: Resource::Text(""), content_type: plain, additional_bytes: n }
    } else {
        Route { resource: Resource::NotFound, content_type: "text/html", additional_bytes: 0 }
    }
}

/// Routes a request: checks that URL and content are text, drops one
/// leading `/` from the URL and looks the path up.  Gives the content as text.
pub fn route_request<'a>(url: &[u8], content: &'a [u8]) -> (r: Result<(Route, &'a str), RouteError>)
    ensures
        r matches Err(RouteError::BadUrl(_)) <==> !valid_utf8(url@),
        r matches Err(RouteError::BadContent(_)) <==> valid_utf8(url@) && !valid_utf8(content@),
        r matches Ok((route, text)) ==> route@ == route_spec(strip_slash(url@)) && text@ == decode_utf8(content@),
{
    if let Err(e) = str_from_utf8(url) {
        return Err(RouteError::BadUrl(e));
    }
    let n = url.len();
    let p = if n > 0 && url[0] == 47 { &url[1..n] } else { url };
    assert(n > 0 && url@[0] == 47 ==> url@.subrange(1, n as int) =~= url@.drop_first());
    let text = match str_from_utf8(content) {
        Err(e) => return Err(RouteError::BadContent(e)),
        Ok(t) => t,
    };
    Ok((route_path(p), text))
}

/// Whether a status request waits for a change: it sent the state it last
/// saw, and that is still the current one.
pub fn waits_for_change(current: &str, seen: &str) -> (r: bool)
    ensures
        r == (seen@.len() > 0 && current@ == seen@),
{
    seen.unicode_len() > 0 && str_eq(current, seen)
}

/// The length a response announces: its data and the zero bytes after it.
pub fn response_length(data_len: usize, additional_bytes: usize) -> (r: usize)
    requires
        data_len + additional_bytes <= usize::MAX,
    ensures
        r == data_len + additional_bytes,
{
    data_len + additional_bytes
}

/// The head of a response: status `200 OK`, the content type and the
/// content length.
pub open spec fn response_head_spec(content_type: Seq<u8>, length: nat) -> Seq<u8> {
    "HTTP/1.1 200 OK\r\nContent-Type: ".spec_bytes() + content_type + "\r\nContent-Length: ".spec_bytes()
        + decimal(length) + "\r\n\r\n".spec_bytes()
}

/// Builds the head of a response of `length` bytes.
pub fn response_head(content_type: &str, length: usize) -> (r: Vec<u8>)
    ensures
        r@ == response_head_spec(content_type.spec_bytes(), length as nat),
{
    let mut out: Vec<u8> = Vec::new();
    push_str(&mut out, "HTTP/1.1 200 OK\r\nContent-Type: ");
    push_str(&mut out, content_type);
    push_str(&mut out, "\r\nContent-Length: ");
    push_decimal(&mut out, length as u64);
    push_str(&mut out, "\r\n\r\n");
    assert(out@ =~= response_head_spec(content_type.spec_bytes(), length as nat));
    out
}

proof fn lemma_route_texts()
    ensures
        "favicon.svg".spec_bytes().len() == 11,
        "uplot.js".spec_bytes().len() == 8,
        "uplot.css".spec_bytes().len() == 9,
        "data.js".spec_bytes().len() == 7,
        "status".spec_bytes().len() == 6,
        "start".spec_bytes().len() == 5,
        "stop".spec_bytes().len() == 4,
        "speedtest/latency.txt".spec_bytes().len() == 21,
        "speedtest/upload.php".spec_bytes().len() == 20,
        "speedtest/".spec_bytes().len() == 10,
        "speedtest/upload.php/".spec_bytes().len() == 21,
{
    reveal_strlit("favicon.svg");
    assert(is_ascii("favicon.svg"));
    is_ascii_spec_bytes("favicon.svg");
    reveal_strlit("uplot.js");
    assert(is_ascii("uplot.js"));
    is_ascii_spec_bytes("uplot.js");
    reveal_strlit("uplot.css");
    assert(is_ascii("uplot.css"));
    is_ascii_spec_bytes("uplot.css");
    reveal_strlit("data.js");
    assert(is_ascii("data.js"));
    is_ascii_spec_bytes("data.js");
    reveal_strlit("status");
    assert(is_ascii("status"));
    is_ascii_spec_bytes("status");
    reveal_strlit("start");
    assert(is_ascii("start"));
    is_ascii_spec_bytes("start");
    reveal_strlit("stop");
    assert(is_ascii("stop"));
    is_ascii_spec_bytes("stop");
    reveal_strlit("speedtest/latency.txt");
    assert(is_ascii("speedtest/latency.txt"));
    is_ascii_spec_bytes("speedtest/latency.txt");
    reveal_strlit("speedtest/upload.php");
    assert(is_ascii("speedtest/upload.php"));
    is_ascii_spec_bytes("speedtest/upload.php");
    reveal_strlit("speedtest/");
    assert(is_ascii("speedtest/"));
    is_ascii_spec_bytes("speedtest/");
    reveal_strlit("speedtest/upload.php/");
    assert(is_ascii("speedtest/upload.php/"));
    is_ascii_spec_bytes("speedtest/upload.php/");
}

/// The paths of the chart page and of the test control each have their own
/// answer, and no other path gives it: the empty path the page, `start`
/// a request for a test to start now, `stop` its withdrawal, `status` the
/// state, `data.js` the results, and the page's files their own.
pub proof fn lemma_named_routes(p: Seq<u8>)
    ensures
        route_spec(Seq::<u8>::empty()) == rv(ResourceView::IndexHtml, "text/html; charset=utf-8"@, 0),
        route_spec("favicon.svg".spec_bytes()) == rv(ResourceView::FaviconSvg, "image/svg+xml"@, 0),
        route_spec("uplot.js".spec_bytes()) == rv(ResourceView::UplotJs, "text/javascript"@, 0),
        route_spec("uplot.css".spec_bytes()) == rv(ResourceView::UplotCss, "text/css"@, 0),
        route_spec("data.js".spec_bytes()) == rv(ResourceView::DataJs, "text/javascript"@, 0),
        route_spec("status".spec_bytes()) == rv(ResourceView::Status, "text/plain"@, 0),
        route_spec("start".spec_bytes()) == rv(ResourceView::Start, "text/plain"@, 0),
        route_spec("stop".spec_bytes()) == rv(ResourceView::Stop, "text/plain"@, 0),
        route_spec("speedtest/latency.txt".spec_bytes()) == rv(ResourceView::Text("test=test"@), "text/plain"@, 0),
        route_spec("speedtest/upload.php".spec_bytes()) == rv(ResourceView::Text(""@), "text/plain"@, 0),
        route_spec(p).resource == ResourceView::IndexHtml <==> p.len() == 0,
        route_spec(p).resource == ResourceView::FaviconSvg <==> p == "favicon.svg".spec_bytes(),
        route_spec(p).resource == ResourceView::UplotJs <==> p == "uplot.js".spec_bytes(),
        route_spec(p).resource == ResourceView::UplotCss <==> p == "uplot.css".spec_bytes(),
        route_spec(p).resource == ResourceView::DataJs <==> p == "data.js".spec_bytes(),
        route_spec(p).resource == ResourceView::Status <==> p == "status".spec_bytes(),
        route_spec(p).resource == ResourceView::Start <==> p == "start".spec_bytes(),
        route_spec(p).resource == ResourceView::Stop <==> p == "stop".spec_bytes(),
        strip_slash(seq![47u8] + p) == p,
        (p.len() == 0 || p[0] != 47) ==> strip_slash(p) == p,
{
    lemma_route_texts();
    assert((seq![47u8] + p).drop_first() =~= p);
}

} // verus!
