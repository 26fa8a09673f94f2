//! HTTP/1.1 messages as the speed test client sees them: status line,
//! header lines, the body (plain or chunked), redirects and request heads.

use vstd::prelude::*;
use vstd::utf8::*;
use vstd::string::*;
use std::str::Utf8Error;
use crate::bytes::{
    ascii_lower, eq_ignore_case, first_occurrence, lemma_first_occurrence, memmem, occurs_at, push_bytes, push_str,
    to_vec,
};
use crate::numbers::{
    decimal, is_digit, lemma_decimal_are_digits, lemma_parse_decimal, lemma_parse_int_range, parse_int, parse_int_spec,
    push_decimal, IntErrorKind,
};
use crate::text::{
    all_ascii, ascii_string, ascii_text, lemma_ascii_utf8, lemma_bytes_deep_view, lemma_split_on_concat, lemma_split_on_none,
    lemma_split_on_nonempty, split_bytes, split_on, str_from_utf8,
};

verus! {

/// Why a response could not be read.
#[derive(Debug)]
pub enum HttpError {
    /// The status line has no second space-separated field.
    NoStatusCode,
    /// A field that must be text is not UTF-8.
    NotUtf8(Utf8Error),
    /// A number field does not parse.
    BadNumber(IntErrorKind),
    /// There is no blank line ending the header.
    NoBody,
    /// A chunk size line has no line end.
    NoChunkStart,
    /// A chunk is announced larger than what follows.
    ChunkTooBig,
}

/// The kind of an `HttpError`, without its details.
#[derive(Debug, Clone, Copy, PartialEq, Eq, Structural)]
pub enum HttpFault {
    NoStatusCode,
    NotUtf8,
    BadNumber(IntErrorKind),
    NoBody,
    NoChunkStart,
    ChunkTooBig,
}

impl HttpError {
    pub open spec fn fault(self) -> HttpFault {
        match self {
            HttpError::NoStatusCode => HttpFault::NoStatusCode,
            HttpError::NotUtf8(_) => HttpFault::NotUtf8,
            HttpError::BadNumber(k) => HttpFault::BadNumber(k),
            HttpError::NoBody => HttpFault::NoBody,
            HttpError::NoChunkStart => HttpFault::NoChunkStart,
            HttpError::ChunkTooBig => HttpFault::ChunkTooBig,
        }
    }
}

/// A result with the error reduced to its kind.
pub open spec fn outcome<T>(r: Result<T, HttpError>) -> Result<T, HttpFault> {
    match r {
        Ok(v) => Ok(v),
        Err(e) => Err(e.fault()),
    }
}

/// A byte-string result with the error reduced to its kind.
pub open spec fn bytes_outcome(r: Result<Vec<u8>, HttpError>) -> Result<Seq<u8>, HttpFault> {
    match r {
        Ok(v) => Ok(v@),
        Err(e) => Err(e.fault()),
    }
}

/// The status code: the second space-separated field of the response,
/// read as a decimal `u32`.
pub open spec fn status_code_spec(resp: Seq<u8>) -> Result<u32, HttpFault> {
    let fields = split_on(resp, 32);
    if fields.len() < 2 {
        Err(HttpFault::NoStatusCode)
    } else if !valid_utf8(fields[1]) {
        Err(HttpFault::NotUtf8)
    } else {
        match parse_int_spec(fields[1], 10, false, 0, 0xffff_ffff) {
            Ok(v) => Ok(v as u32),
            Err(k) => Err(HttpFault::BadNumber(k)),
        }
    }
}

/// Reads the status code of a response.
pub fn http_status_code(resp: &[u8]) -> (r: Result<u32, HttpError>)
    ensures
        outcome(r) == status_code_spec(resp@),
{
    let fields = split_bytes(resp, 32);
    if fields.len() < 2 {
        return Err(HttpError::NoStatusCode);
    }
    proof {
        lemma_bytes_deep_view(fields@[1]);
    }
    let code = fields[1].as_slice();
    match str_from_utf8(code) {
        Err(e) => Err(HttpError::NotUtf8(e)),
        Ok(_) => match parse_int(code, 10, false, 0, 0xffff_ffff) {
            Ok(v) => Ok(v as u32),
            Err(k) => Err(HttpError::BadNumber(k)),
        },
    }
}

/// A header line split into name and value.
#[derive(Debug)]
pub struct Header {
    pub name: Vec<u8>,
    pub value: Vec<u8>,
}

impl View for Header {
    type V = (Seq<u8>, Seq<u8>);

    open spec fn view(&self) -> (Seq<u8>, Seq<u8>) {
        (self.name@, self.value@)
    }
}

pub open spec fn colon_space() -> Seq<u8> {
    seq![58u8, 32u8]
}

/// A line taking part in the header: not empty and ending in `\r`.
pub open spec fn is_header_line(l: Seq<u8>) -> bool {
    l.len() > 0 && l.last() == 13
}

/// The header a line holds: the text before the first `: ` and the text
/// after it without the final `\r`; none where the line has no `: `.
pub open spec fn header_of_line(l: Seq<u8>) -> Seq<(Seq<u8>, Seq<u8>)> {
    match first_occurrence(l, colon_space()) {
        None => Seq::empty(),
        Some(k) => seq![(l.subrange(0, k), l.subrange(k + 2, l.len() - 1))],
    }
}

/// Headers of the leading lines that end in `\r`, up to the first line
/// that does not.
pub open spec fn headers_of_lines(ls: Seq<Seq<u8>>) -> Seq<(Seq<u8>, Seq<u8>)>
    decreases ls.len(),
{
    if ls.len() == 0 || !is_header_line(ls[0]) {
        Seq::empty()
    } else {
        header_of_line(ls[0]) + headers_of_lines(ls.drop_first())
    }
}

/// The headers of an HTTP message, in order.
pub open spec fn headers_spec(msg: Seq<u8>) -> Seq<(Seq<u8>, Seq<u8>)> {
    headers_of_lines(split_on(msg, 10))
}

pub open spec fn header_views(hs: Seq<Header>) -> Seq<(Seq<u8>, Seq<u8>)> {
    hs.map_values(|h: Header| h@)
}

/// Splits a line into a header, if it has a `: `.
fn header_line(line: &[u8]) -> (r: Option<Header>)
    requires
        is_header_line(line@),
    ensures
        r matches Some(h) ==> header_of_line(line@) == seq![h@],
        r is None ==> header_of_line(line@) == Seq::<(Seq<u8>, Seq<u8>)>::empty(),
{
    let sep: [u8; 2] = [58, 32];
    proof {
        assert(sep@ =~= colon_space());
    }
    match memmem(line, sep.as_slice()) {
        None => None,
        Some(k) => {
            proof {
                assert(line@.subrange(k as int, k + 2)[1] == 32u8);
                assert(line@[k + 1] == 32u8);
            }
            let n = line.len();
            let name = to_vec(&line[0..k]);
            let value = to_vec(&line[k + 2..n - 1]);
            Some(Header { name, value })
        },
    }
}

/// Splits the header of an HTTP message into its headers.
pub fn http_headers(msg: &[u8]) -> (r: Vec<Header>)
    ensures
        header_views(r@) == headers_spec(msg@),
{
    let lines = split_bytes(msg, 10);
    let ghost ls = lines.deep_view();
    let n = lines.len();
    let mut out: Vec<Header> = Vec::new();
    let mut i: usize = 0;
    proof {
        assert(ls.subrange(0, n as int) =~= ls);
    }
    while i < n
        invariant
            n == lines@.len(),
            ls == lines.deep_view(),
            ls == split_on(msg@, 10),
            i <= n,
            header_views(out@) + headers_of_lines(ls.subrange(i as int, n as int)) == headers_spec(msg@),
        decreases n - i,
    {
        proof {
            lemma_bytes_deep_view(lines@[i as int]);
            assert(ls.subrange(i as int, n as int)[0] == lines@[i as int]@);
            assert(ls.subrange(i as int, n as int).drop_first() =~= ls.subrange(i + 1, n as int));
        }
        let line = lines[i].as_slice();
        let len = line.len();
        if len == 0 || line[len - 1] != 13 {
            proof {
                assert(headers_of_lines(ls.subrange(i as int, n as int)) =~= Seq::empty());
                assert(header_views(out@) + Seq::empty() =~= header_views(out@));
            }
            return out;
        }
        let ghost before = header_views(out@);
        match header_line(line) {
            None => {
                assert(before + headers_of_lines(ls.subrange(i + 1, n as int)) =~= before + (Seq::empty() + headers_of_lines(ls.subrange(i + 1, n as int))));
            },
            Some(h) => {
                let ghost hv = h@;
                out.push(h);
                assert(header_views(out@) =~= before.push(hv));
                assert(header_views(out@) + headers_of_lines(ls.subrange(i + 1, n as int)) =~= before + (seq![hv] + headers_of_lines(ls.subrange(i + 1, n as int))));
            },
        }
        i = i + 1;
    }
    proof {
        assert(ls.subrange(n as int, n as int) =~= Seq::<Seq<u8>>::empty());
        assert(header_views(out@) + Seq::empty() =~= header_views(out@));
    }
    out
}

pub open spec fn crlf() -> Seq<u8> {
    seq![13u8, 10u8]
}

pub open spec fn blank_line() -> Seq<u8> {
    seq![13u8, 10u8, 13u8, 10u8]
}

/// Length of the leading part of `s` before the first `;` or `\r`.
pub open spec fn chunk_size_len(s: Seq<u8>) -> int
    decreases s.len(),
{
    if s.len() == 0 || s[0] == 59 || s[0] == 13 {
        0
    } else {
        1 + chunk_size_len(s.drop_first())
    }
}

/// The message announces `Transfer-Encoding: chunked` (either in any case).
pub open spec fn is_chunked(msg: Seq<u8>) -> bool {
    exists|i: int| 0 <= i < headers_spec(msg).len()
        && ascii_lower(#[trigger] headers_spec(msg)[i].0) == "transfer-encoding".spec_bytes()
        && ascii_lower(headers_spec(msg)[i].1) == "chunked".spec_bytes()
}

/// Joins decoded data in front of the rest of a decoding.
pub open spec fn prepend(data: Seq<u8>, rest: Option<Result<Seq<u8>, HttpFault>>) -> Option<Result<Seq<u8>, HttpFault>> {
    match rest {
        Some(Ok(more)) => Some(Ok(data + more)),
        other => other,
    }
}

/// Decodes a chunked body: each chunk is a hexadecimal size (ended by `;`
/// or `\r`), a line end, the data and two more bytes; a zero size or the
/// end of the text ends it.  `None` where a size is so large that adding 2
/// to it overflows `usize`.
pub open spec fn decode_chunks(body: Seq<u8>) -> Option<Result<Seq<u8>, HttpFault>>
    decreases body.len(),
{
    let size_text = body.take(chunk_size_len(body));
    if !valid_utf8(size_text) {
        Some(Err(HttpFault::NotUtf8))
    } else {
        match parse_int_spec(size_text, 16, false, 0, usize::MAX as int) {
            Err(k) => Some(Err(HttpFault::BadNumber(k))),
            Ok(n) => if n == 0 {
                Some(Ok(Seq::empty()))
            } else {
                match first_occurrence(body, crlf()) {
                    None => Some(Err(HttpFault::NoChunkStart)),
                    Some(k) => {
                        proof {
                            lemma_first_occurrence(body, crlf());
                            lemma_parse_int_range(size_text, 16, 0, usize::MAX as int);
                        }
                        let rest = body.skip(k + 2);
                        if n + 2 > usize::MAX {
                            None
                        } else if n + 2 > rest.len() {
                            Some(Err(HttpFault::ChunkTooBig))
                        } else {
                            let after = rest.skip(n + 2);
                            if after.len() == 0 {
                                Some(Ok(rest.take(n)))
                            } else {
                                prepend(rest.take(n), decode_chunks(after))
                            }
                        }
                    },
                }
            },
        }
    }
}

/// The body of a response: what follows the first blank line, decoded when
/// the header announces chunked transfer.  `None` where a chunk size
/// overflows (see `decode_chunks`).
pub open spec fn body_spec(msg: Seq<u8>) -> Option<Result<Seq<u8>, HttpFault>> {
    match first_occurrence(msg, blank_line()) {
        None => Some(Err(HttpFault::NoBody)),
        Some(k) => {
            let body = msg.skip(k + 4);
            if !is_chunked(msg) {
                Some(Ok(body))
            } else {
                decode_chunks(body)
            }
        },
    }
}

fn has_chunked_header(msg: &[u8]) -> (r: bool)
    ensures
        r == is_chunked(msg@),
{
    let hs = http_headers(msg);
    let n = hs.len();
    let te = "transfer-encoding".as_bytes();
    let ch = "chunked".as_bytes();
    let mut i: usize = 0;
    while i < n
        invariant
            n == hs@.len(),
            i <= n,
            header_views(hs@) == headers_spec(msg@),
            te@ == "transfer-encoding".spec_bytes(),
            ch@ == "chunked".spec_bytes(),
            forall|j: int| 0 <= j < i ==> !(ascii_lower(#[trigger] headers_spec(msg@)[j].0) == "transfer-encoding".spec_bytes()
                && ascii_lower(headers_spec(msg@)[j].1) == "chunked".spec_bytes()),
        decreases n - i,
    {
        assert(headers_spec(msg@)[i as int] == hs@[i as int]@);
        if eq_ignore_case(hs[i].name.as_slice(), te) && eq_ignore_case(hs[i].value.as_slice(), ch) {
            assert(ascii_lower(headers_spec(msg@)[i as int].0) == "transfer-encoding".spec_bytes()
                && ascii_lower(headers_spec(msg@)[i as int].1) == "chunked".spec_bytes());
            return true;
        }
        i = i + 1;
    }
    false
}

fn chunk_size_end(s: &[u8]) -> (r: usize)
    ensures
        r == chunk_size_len(s@),
        r <= s@.len(),
{
    let n = s.len();
    let mut i: usize = 0;
    assert(s@.skip(0) =~= s@);
    while i < n && s[i] != 59 && s[i] != 13
        invariant
            n == s@.len(),
            i <= n,
            chunk_size_len(s@) == i + chunk_size_len(s@.skip(i as int)),
        decreases n - i,
    {
        assert(s@.skip(i as int).drop_first() =~= s@.skip(i + 1));
        i = i + 1;
    }
    proof {
        assert(chunk_size_len(s@.skip(i as int)) == 0);
    }
    i
}

/// Whether reading the body of `msg` would meet a chunk size too large to
/// add 2 to.
pub fn http_body_overflows(msg: &[u8]) -> (r: bool)
    ensures
        r == (body_spec(msg@) is None),
{
    match body_steps(msg) {
        None => true,
        Some(_) => false,
    }
}

/// The body of a response, decoding chunked transfer.
pub fn http_body(msg: &[u8]) -> (r: Result<Vec<u8>, HttpError>)
    requires
        body_spec(msg@) is Some,
    ensures
        Some(bytes_outcome(r)) == body_spec(msg@),
{
    match body_steps(msg) {
        None => {
            proof {
                assert(false);
            }
            Err(HttpError::NoBody)
        },
        Some(r) => r,
    }
}

fn body_steps(msg: &[u8]) -> (r: Option<Result<Vec<u8>, HttpError>>)
    ensures
        r is None <==> body_spec(msg@) is None,
        r matches Some(x) ==> Some(bytes_outcome(x)) == body_spec(msg@),
{
    let blank: [u8; 4] = [13, 10, 13, 10];
    assert(blank@ =~= blank_line());
    let k = match memmem(msg, blank.as_slice()) {
        None => return Some(Err(HttpError::NoBody)),
        Some(k) => k,
    };
    let n = msg.len();
    let mut pos: usize = k + 4;
    let ghost body = msg@.skip(pos as int);
    if !has_chunked_header(msg) {
        return Some(Ok(to_vec(&msg[pos..n])));
    }
    let mut out: Vec<u8> = Vec::new();
    let line_end: [u8; 2] = [13, 10];
    assert(line_end@ =~= crlf());
    assert(msg@.skip(pos as int) =~= msg@.subrange(pos as int, n as int));
    loop
        invariant
            n == msg@.len(),
            pos <= n,
            line_end@ == crlf(),
            body_spec(msg@) == decode_chunks(body),
            decode_chunks(body) == prepend(out@, decode_chunks(msg@.skip(pos as int))),
        decreases n - pos,
    {
        let cur = &msg[pos..n];
        assert(cur@ =~= msg@.skip(pos as int));
        let stop = chunk_size_end(cur);
        let size_text = &cur[0..stop];
        assert(size_text@ =~= cur@.take(stop as int));
        if let Err(e) = str_from_utf8(size_text) {
            return Some(Err(HttpError::NotUtf8(e)));
        }
        let size = match parse_int(size_text, 16, false, 0, usize::MAX as i128) {
            Err(e) => return Some(Err(HttpError::BadNumber(e))),
            Ok(v) => v as usize,
        };
        if size == 0 {
            assert(out@ + Seq::<u8>::empty() =~= out@);
            return Some(Ok(out));
        }
        let k2 = match memmem(cur, line_end.as_slice()) {
            None => return Some(Err(HttpError::NoChunkStart)),
            Some(k2) => k2,
        };
        proof {
            lemma_first_occurrence(cur@, crlf());
        }
        let rest_start = pos + k2 + 2;
        assert(cur@.skip(k2 + 2) =~= msg@.skip(rest_start as int));
        if size > usize::MAX - 2 {
            return None;
        }
        if size + 2 > n - rest_start {
            return Some(Err(HttpError::ChunkTooBig));
        }
        let data_end = rest_start + size;
        let ghost before = out@;
        push_bytes(&mut out, &msg[rest_start..data_end]);
        assert(msg@.subrange(rest_start as int, data_end as int) =~= msg@.skip(rest_start as int).take(size as int));
        let next = data_end + 2;
        assert(msg@.skip(rest_start as int).skip(size + 2) =~= msg@.skip(next as int));
        pos = next;
        if pos == n {
            assert(msg@.skip(pos as int).len() == 0);
            return Some(Ok(out));
        }
        assert(prepend(before, prepend(msg@.subrange(rest_start as int, data_end as int), decode_chunks(msg@.skip(pos as int))))
            == prepend(out@, decode_chunks(msg@.skip(pos as int)))) by {
            match decode_chunks(msg@.skip(pos as int)) {
                Some(Ok(more)) => {
                    assert(before + (msg@.subrange(rest_start as int, data_end as int) + more) =~= out@ + more);
                },
                _ => {},
            }
        }
    }
}

/// `pat` occurs in `s` at `i`.
pub open spec fn chars_at(s: Seq<char>, pat: Seq<char>, i: int) -> bool {
    0 <= i && i + pat.len() <= s.len() && s.subrange(i, i + pat.len()) == pat
}

/// The first index from `i` on where `pat` occurs in `s`.
pub open spec fn find_chars_from(s: Seq<char>, pat: Seq<char>, i: int) -> Option<int>
    decreases s.len() - i,
{
    if i < 0 || i + pat.len() > s.len() {
        None
    } else if chars_at(s, pat, i) {
        Some(i)
    } else if i >= s.len() {
        None
    } else {
        find_chars_from(s, pat, i + 1)
    }
}

pub open spec fn scheme_sep() -> Seq<char> {
    seq![':', '/', '/']
}

/// Where the host of a URL starts: after the first `://`, or at 0.
pub open spec fn host_start(u: Seq<char>) -> int {
    match find_chars_from(u, scheme_sep(), 0) {
        None => 0,
        Some(i) => i + 3,
    }
}

/// Where the path of a URL starts: at the first `/` from the host on, or
/// at the end.
pub open spec fn path_start(u: Seq<char>) -> int {
    match find_chars_from(u, seq!['/'], host_start(u)) {
        None => u.len() as int,
        Some(j) => j,
    }
}

proof fn lemma_find_chars_from(s: Seq<char>, pat: Seq<char>, i: int)
    requires
        0 <= i,
    ensures
        find_chars_from(s, pat, i) matches Some(k) ==> i <= k && chars_at(s, pat, k)
            && forall|j: int| i <= j < k ==> !chars_at(s, pat, j),
        find_chars_from(s, pat, i) is None ==> forall|j: int| i <= j ==> !chars_at(s, pat, j),
    decreases s.len() - i,
{
    if i + pat.len() <= s.len() && !chars_at(s, pat, i) && i < s.len() {
        lemma_find_chars_from(s, pat, i + 1);
    }
}

proof fn lemma_find_chars_is(s: Seq<char>, pat: Seq<char>, a: int, k: int)
    requires
        0 <= a <= k,
        chars_at(s, pat, k),
        forall|j: int| a <= j < k ==> !chars_at(s, pat, j),
    ensures
        find_chars_from(s, pat, a) == Some(k),
    decreases k - a,
{
    if a < k {
        lemma_find_chars_is(s, pat, a + 1, k);
    }
}

proof fn lemma_find_chars_none(s: Seq<char>, pat: Seq<char>, a: int)
    requires
        0 <= a,
        forall|j: int| a <= j ==> !chars_at(s, pat, j),
    ensures
        find_chars_from(s, pat, a) is None,
    decreases s.len() - a,
{
    if a + pat.len() <= s.len() && a < s.len() {
        lemma_find_chars_none(s, pat, a + 1);
    }
}

fn find_scheme_sep(url: &str, n: usize) -> (r: usize)
    requires
        n == url@.len(),
    ensures
        r == host_start(url@),
        r <= n,
{
    if n < 3 {
        proof {
            lemma_find_chars_none(url@, scheme_sep(), 0);
        }
        return 0;
    }
    let mut i: usize = 0;
    while i <= n - 3
        invariant
            n == url@.len(),
            3 <= n,
            i <= n - 2,
            forall|j: int| 0 <= j < i ==> !chars_at(url@, scheme_sep(), j),
        decreases n - i,
    {
        if url.get_char(i) == ':' && url.get_char(i + 1) == '/' && url.get_char(i + 2) == '/' {
            proof {
                assert(url@.subrange(i as int, i + 3) =~= scheme_sep());
                lemma_find_chars_is(url@, scheme_sep(), 0, i as int);
            }
            return i + 3;
        }
        proof {
            if chars_at(url@, scheme_sep(), i as int) {
                assert(url@.subrange(i as int, i + 3)[0] == ':');
                assert(url@.subrange(i as int, i + 3)[1] == '/');
                assert(url@.subrange(i as int, i + 3)[2] == '/');
            }
        }
        i = i + 1;
    }
    proof {
        lemma_find_chars_none(url@, scheme_sep(), 0);
    }
    0
}

fn find_slash(url: &str, n: usize, from: usize) -> (r: usize)
    requires
        n == url@.len(),
        from <= n,
    ensures
        r == match find_chars_from(url@, seq!['/'], from as int) {
            None => n as int,
            Some(j) => j,
        },
        from <= r <= n,
{
    let mut j: usize = from;
    while j < n
        invariant
            n == url@.len(),
            from <= j <= n,
            forall|k: int| from <= k < j ==> !chars_at(url@, seq!['/'], k),
        decreases n - j,
    {
        if url.get_char(j) == '/' {
            proof {
                assert(url@.subrange(j as int, j + 1) =~= seq!['/']);
                lemma_find_chars_is(url@, seq!['/'], from as int, j as int);
            }
            return j;
        }
        proof {
            if chars_at(url@, seq!['/'], j as int) {
                assert(url@.subrange(j as int, j + 1)[0] == '/');
            }
        }
        j = j + 1;
    }
    proof {
        lemma_find_chars_none(url@, seq!['/'], from as int);
    }
    n
}

/// Splits a URL into host (after any `scheme://`, up to the first `/`)
/// and path (from that `/` on).
pub fn url_host_and_path(url: &str) -> (r: (&str, &str))
    ensures
        r.0@ == url@.subrange(host_start(url@), path_start(url@)),
        r.1@ == url@.subrange(path_start(url@), url@.len() as int),
{
    let n = url.unicode_len();
    let start = find_scheme_sep(url, n);
    let end = find_slash(url, n, start);
    (url.substring_char(start, end), url.substring_char(end, n))
}

/// A URL splits into host and path without losing or adding anything: the
/// host, which holds no `/`, and the path, which is empty or starts with
/// `/`, make up the URL after its `scheme://`.
pub proof fn lemma_url_split(u: Seq<char>)
    ensures
        0 <= host_start(u) <= path_start(u) <= u.len(),
        u.subrange(host_start(u), path_start(u)) + u.subrange(path_start(u), u.len() as int)
            == u.subrange(host_start(u), u.len() as int),
        forall|i: int| host_start(u) <= i < path_start(u) ==> #[trigger] u[i] != '/',
        path_start(u) < u.len() ==> u[path_start(u)] == '/',
{
    lemma_find_chars_from(u, scheme_sep(), 0);
    let h = host_start(u);
    lemma_find_chars_from(u, seq!['/'], h);
    let p = path_start(u);
    assert forall|i: int| h <= i < p implies #[trigger] u[i] != '/' by {
        if u[i] == '/' {
            assert(u.subrange(i, i + 1) =~= seq!['/']);
            assert(chars_at(u, seq!['/'], i));
        }
    }
    if p < u.len() {
        assert(u.subrange(p, p + 1)[0] == u[p]);
    }
    assert(u.subrange(h, p) + u.subrange(p, u.len() as int) =~= u.subrange(h, u.len() as int));
}

/// What a response asks the client to do next.
#[derive(Debug)]
pub enum RedirectStep {
    /// The response is the final one.
    Done,
    /// Fetch `path` from `host` instead.
    Follow { host: String, path: String },
}

/// `RedirectStep` with the texts as characters.
pub ghost enum RedirectView {
    Done,
    Follow(Seq<char>, Seq<char>),
}

impl View for RedirectStep {
    type V = RedirectView;

    open spec fn view(&self) -> RedirectView {
        match self {
            RedirectStep::Done => RedirectView::Done,
            RedirectStep::Follow { host, path } => RedirectView::Follow(host@, path@),
        }
    }
}

pub open spec fn is_redirect_code(c: u32) -> bool {
    c == 301 || c == 302 || c == 303 || c == 307 || c == 308
}

/// The value of the last `Location` header (any case) that is UTF-8.
pub open spec fn last_location(hs: Seq<(Seq<u8>, Seq<u8>)>) -> Option<Seq<u8>>
    decreases hs.len(),
{
    if hs.len() == 0 {
        None
    } else if ascii_lower(hs.last().0) == "location".spec_bytes() && valid_utf8(hs.last().1) {
        Some(hs.last().1)
    } else {
        last_location(hs.drop_last())
    }
}

proof fn lemma_last_location_utf8(hs: Seq<(Seq<u8>, Seq<u8>)>)
    ensures
        last_location(hs) matches Some(v) ==> valid_utf8(v),
    decreases hs.len(),
{
    if hs.len() > 0 {
        lemma_last_location_utf8(hs.drop_last());
    }
}

/// The next step after response `msg`: a redirect status with a usable
/// `Location` header sends the client to that URL's host and path.
pub open spec fn redirect_spec(msg: Seq<u8>) -> Result<RedirectView, HttpFault> {
    match status_code_spec(msg) {
        Err(f) => Err(f),
        Ok(c) => if !is_redirect_code(c) {
            Ok(RedirectView::Done)
        } else {
            match last_location(headers_spec(msg)) {
                None => Ok(RedirectView::Done),
                Some(v) => {
                    let u = decode_utf8(v);
                    Ok(RedirectView::Follow(
                        u.subrange(host_start(u), path_start(u)),
                        u.subrange(path_start(u), u.len() as int),
                    ))
                },
            }
        },
    }
}

pub open spec fn redirect_outcome(r: Result<RedirectStep, HttpError>) -> Result<RedirectView, HttpFault> {
    match r {
        Ok(v) => Ok(v@),
        Err(e) => Err(e.fault()),
    }
}

/// One step of fetching with redirects: decides from response `msg`
/// whether it is final or names another location to fetch.
pub fn http_get_follow_redirects(msg: &[u8]) -> (r: Result<RedirectStep, HttpError>)
    ensures
        redirect_outcome(r) == redirect_spec(msg@),
{
    let code = match http_status_code(msg) {
        Err(e) => return Err(e),
        Ok(c) => c,
    };
    if !(code == 301 || code == 302 || code == 303 || code == 307 || code == 308) {
        return Ok(RedirectStep::Done);
    }
    let hs = http_headers(msg);
    let loc_name = "location".as_bytes();
    let n = hs.len();
    let mut found: Option<usize> = None;
    let mut i: usize = 0;
    let ghost hv = header_views(hs@);
    assert(hv.take(0) =~= Seq::<(Seq<u8>, Seq<u8>)>::empty());
    while i < n
        invariant
            n == hs@.len(),
            i <= n,
            hv == header_views(hs@),
            hv == headers_spec(msg@),
            loc_name@ == "location".spec_bytes(),
            match found {
                None => last_location(hv.take(i as int)) is None,
                Some(k) => k < i && last_location(hv.take(i as int)) == Some(hs@[k as int].value@),
            },
        decreases n - i,
    {
        assert(hv.take(i + 1).drop_last() =~= hv.take(i as int));
        assert(hv.take(i + 1).last() == hs@[i as int]@);
        if eq_ignore_case(hs[i].name.as_slice(), loc_name) && str_from_utf8(hs[i].value.as_slice()).is_ok() {
            found = Some(i);
        }
        i = i + 1;
    }
    assert(hv.take(n as int) =~= hv);
    proof {
        lemma_last_location_utf8(hv);
    }
    match found {
        None => Ok(RedirectStep::Done),
        Some(k) => {
            match str_from_utf8(hs[k].value.as_slice()) {
                Err(e) => Err(HttpError::NotUtf8(e)),
                Ok(v) => {
                    let (h, p) = url_host_and_path(v);
                    Ok(RedirectStep::Follow { host: String::from_str(h), path: String::from_str(p) })
                },
            }
        },
    }
}

/// The head of a request: request line, `Host`, `User-Agent`, `Accept`,
/// `Connection: close`, the extra header lines, and the blank line.
pub open spec fn request_head_spec(host: Seq<u8>, path: Seq<u8>, method: Seq<u8>, user_agent: Seq<u8>, extra_headers: Seq<u8>) -> Seq<u8> {
    method + " ".spec_bytes() + path + " HTTP/1.1\r\nHost: ".spec_bytes() + host
        + "\r\nUser-Agent: ".spec_bytes() + user_agent
        + "\r\nAccept: */*\r\nConnection: close\r\n".spec_bytes() + extra_headers + "\r\n".spec_bytes()
}

/// Builds the bytes a request starts with; `extra_headers` holds whole
/// header lines, each ending in `\r\n`.
pub fn http_request_head(host: &str, path: &str, method: &str, user_agent: &str, extra_headers: &str) -> (r: Vec<u8>)
    ensures
        r@ == request_head_spec(host.spec_bytes(), path.spec_bytes(), method.spec_bytes(), user_agent.spec_bytes(), extra_headers.spec_bytes()),
{
    let mut out: Vec<u8> = Vec::new();
    push_str(&mut out, method);
    push_str(&mut out, " ");
    push_str(&mut out, path);
    push_str(&mut out, " HTTP/1.1\r\nHost: ");
    push_str(&mut out, host);
    push_str(&mut out, "\r\nUser-Agent: ");
    push_str(&mut out, user_agent);
    push_str(&mut out, "\r\nAccept: */*\r\nConnection: close\r\n");
    push_str(&mut out, extra_headers);
    push_str(&mut out, "\r\n");
    assert(out@ =~= request_head_spec(host.spec_bytes(), path.spec_bytes(), method.spec_bytes(), user_agent.spec_bytes(), extra_headers.spec_bytes()));
    out
}

/// The decimal text of `n`.
pub open spec fn decimal_text(n: nat) -> Seq<char> {
    ascii_text(decimal(n))
}

fn decimal_string(n: u64) -> (r: String)
    ensures
        r@ == decimal_text(n as nat),
{
    let mut v: Vec<u8> = Vec::new();
    push_decimal(&mut v, n);
    proof {
        assert(v@ =~= decimal(n as nat));
        lemma_decimal_are_digits(n as nat);
    }
    ascii_string(v)
}

/// The size that follows size number `i`: the next one, or the last again.
pub open spec fn next_size_index(i: int, len: int) -> int {
    if i < len - 1 { i + 1 } else { i }
}

/// One round of the download test: the path of the image of the current
/// size (`speedtest/random{size}x{size}.jpg`) and the index of the size to
/// use next.
pub fn test_download(sizes: &[u32], i: usize) -> (r: (String, usize))
    requires
        i < sizes@.len(),
    ensures
        r.0@ == "speedtest/random"@ + decimal_text(sizes@[i as int] as nat) + "x"@
            + decimal_text(sizes@[i as int] as nat) + ".jpg"@,
        r.1 == next_size_index(i as int, sizes@.len() as int),
{
    let size = sizes[i];
    let digits = decimal_string(size as u64);
    let mut path = String::from_str("speedtest/random");
    path.append(digits.as_str());
    path.append("x");
    path.append(digits.as_str());
    path.append(".jpg");
    let next = if i < sizes.len() - 1 { i + 1 } else { i };
    (path, next)
}

/// One round of the upload test: the extra header announcing the body size
/// (`Content-Length: {size}\r\n`), the number of bytes to send, and the
/// index of the size to use next.
pub fn test_upload(sizes: &[u32], i: usize) -> (r: (String, usize, usize))
    requires
        i < sizes@.len(),
    ensures
        r.0@ == "Content-Length: "@ + decimal_text(sizes@[i as int] as nat) + "\r\n"@,
        r.1 == sizes@[i as int],
        r.2 == next_size_index(i as int, sizes@.len() as int),
{
    let size = sizes[i];
    let digits = decimal_string(size as u64);
    let mut header = String::from_str("Content-Length: ");
    header.append(digits.as_str());
    header.append("\r\n");
    let next = if i < sizes.len() - 1 { i + 1 } else { i };
    (header, size as usize, next)
}


/// A status line `version code reason`, whatever follows it, gives the
/// code written in it; a response without a space has no status code.
pub proof fn lemma_status_code(version: Seq<u8>, code: u32, rest: Seq<u8>, resp: Seq<u8>)
    requires
        forall|i: int| 0 <= i < version.len() ==> #[trigger] version[i] != 32,
    ensures
        status_code_spec(version + seq![32u8] + decimal(code as nat) + seq![32u8] + rest) == Ok::<u32, HttpFault>(code),
        (forall|i: int| 0 <= i < resp.len() ==> #[trigger] resp[i] != 32) ==> status_code_spec(resp) == Err::<u32, HttpFault>(HttpFault::NoStatusCode),
{
    let d = decimal(code as nat);
    lemma_decimal_are_digits(code as nat);
    assert forall|i: int| 0 <= i < d.len() implies #[trigger] d[i] != 32 && d[i] < 128 by {
        assert(is_digit(d[i]));
    }
    lemma_split_on_none(version, 32);
    lemma_split_on_none(d, 32);
    lemma_split_on_concat(d, rest, 32);
    let tail = d + seq![32u8] + rest;
    lemma_split_on_concat(version, tail, 32);
    assert(version + seq![32u8] + decimal(code as nat) + seq![32u8] + rest =~= version + seq![32u8] + tail);
    let fields = split_on(version + seq![32u8] + tail, 32);
    assert(fields == seq![version] + (seq![d] + split_on(rest, 32)));
    assert(fields[1] == d);
    assert(all_ascii(d));
    lemma_ascii_utf8(d);
    lemma_parse_decimal(code as nat, 0, 0xffff_ffff);
    assert(is_digit(d[0]));
    assert(parse_int_spec(d, 10, false, 0, 0xffff_ffff) == Ok::<int, IntErrorKind>(code as int));
    if forall|i: int| 0 <= i < resp.len() ==> #[trigger] resp[i] != 32 {
        lemma_split_on_none(resp, 32);
    }
}

} // verus!
