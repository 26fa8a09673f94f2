//! Framing of requests on one connection to the built-in web server: the
//! receive buffer, header detection, request extraction and the carry-over
//! of bytes that belong to the next request.

use vstd::prelude::*;
use vstd::utf8::*;
use vstd::string::*;
use crate::bytes::{ascii_lower, bytes_eq, eq_ignore_case, first_occurrence, memmem, to_vec};
use crate::http::{blank_line, header_views, headers_spec, http_headers};
use crate::numbers::{parse_int, parse_int_spec};
use crate::text::{lemma_bytes_deep_view, lemma_split_on_nonempty, split_bytes, split_on, str_from_utf8};

verus! {

/// Size of the receive buffer.
pub const RECV_BUF_LEN: usize = 8192;

/// The state of a connection between reads.
pub struct Connection {
    buf: Vec<u8>,
    bytes_read: usize,
    hdrend_off: usize,
    content_length: usize,
    close: bool,
}

/// `Connection` as plain values.
pub ghost struct ConnView {
    pub buf: Seq<u8>,
    pub bytes_read: int,
    pub hdrend_off: int,
    pub content_length: int,
    pub close: bool,
}

impl View for Connection {
    type V = ConnView;

    closed spec fn view(&self) -> ConnView {
        ConnView {
            buf: self.buf@,
            bytes_read: self.bytes_read as int,
            hdrend_off: self.hdrend_off as int,
            content_length: self.content_length as int,
            close: self.close,
        }
    }
}

/// A complete request taken from the buffer.
#[derive(Debug)]
pub struct Request {
    pub url: Vec<u8>,
    pub content: Vec<u8>,
    /// The client asked to close the connection after this request.
    pub close: bool,
}

/// Why a request was refused.
#[derive(Debug, Clone, Copy, PartialEq, Eq, Structural)]
pub enum RequestError {
    /// The request line does not start with `GET` or `POST`.
    BadMethod,
    /// The request line has no URL.
    BadUrl,
}

/// What a `Content-Length` value counts for: its decimal value, or 0 where
/// it is not UTF-8 or not a `usize`.
pub open spec fn content_length_value(v: Seq<u8>) -> int {
    if valid_utf8(v) {
        match parse_int_spec(v, 10, false, 0, usize::MAX as int) {
            Ok(n) => n,
            Err(_) => 0,
        }
    } else {
        0
    }
}

/// The close flag and content length after the headers `hs`, starting
/// from `close` and `len`: a `Connection: close` header sets the flag, and
/// the last `Content-Length` header gives the length.
pub open spec fn apply_headers(hs: Seq<(Seq<u8>, Seq<u8>)>, close: bool, len: int) -> (bool, int)
    decreases hs.len(),
{
    if hs.len() == 0 {
        (close, len)
    } else {
        let (c, l) = apply_headers(hs.drop_last(), close, len);
        let h = hs.last();
        let c2 = c || (ascii_lower(h.0) == "connection".spec_bytes() && ascii_lower(h.1) == "close".spec_bytes());
        let l2 = if ascii_lower(h.0) == "content-length".spec_bytes() { content_length_value(h.1) } else { l };
        (c2, l2)
    }
}

/// The state after looking for the end of the header: while none has been
/// found, the first blank line in the whole buffer ends it, and the header
/// lines before it set the close flag and the content length.
pub open spec fn scan_header(v: ConnView) -> ConnView {
    if v.hdrend_off != 0 {
        v
    } else {
        match first_occurrence(v.buf, blank_line()) {
            None => v,
            Some(off) => {
                let (c, l) = apply_headers(headers_spec(v.buf.subrange(0, off + 2)), v.close, v.content_length);
                ConnView { hdrend_off: off + 4, close: c, content_length: l, ..v }
            },
        }
    }
}

/// Looking for a request would overflow adding header and content lengths.
pub open spec fn request_overflows(v: ConnView) -> bool {
    scan_header(v).hdrend_off + scan_header(v).content_length > usize::MAX
}

/// The request line's method is `GET` or `POST` and a URL follows.
pub open spec fn request_of(v: ConnView) -> Result<(Seq<u8>, Seq<u8>), RequestError> {
    let fields = split_on(v.buf.subrange(0, v.hdrend_off), 32);
    if !(fields[0] == "GET".spec_bytes() || fields[0] == "POST".spec_bytes()) {
        Err(RequestError::BadMethod)
    } else if fields.len() < 2 {
        Err(RequestError::BadUrl)
    } else {
        let end = if v.hdrend_off + v.content_length < v.buf.len() { v.hdrend_off + v.content_length } else { v.buf.len() as int };
        Ok((fields[1], v.buf.subrange(v.hdrend_off, end)))
    }
}

/// A request is complete once the bytes read cover header and content.
pub open spec fn request_ready(v: ConnView) -> bool {
    v.bytes_read >= v.hdrend_off + v.content_length
}

/// Dropping a served request would copy from beyond the buffer.
pub open spec fn finish_overflows(v: ConnView) -> bool {
    v.hdrend_off + v.content_length < v.buf.len() && v.bytes_read > v.buf.len()
}

/// The state after a served request: the bytes after it move to the front
/// of the buffer, and the header state starts over.
pub open spec fn finished(v: ConnView) -> ConnView {
    let used = v.hdrend_off + v.content_length;
    if used < v.buf.len() {
        let moved = v.bytes_read - used;
        ConnView {
            buf: Seq::new(v.buf.len(), |j: int| if j < moved { v.buf[used + j] } else { v.buf[j] }),
            bytes_read: moved,
            hdrend_off: 0,
            content_length: 0,
            close: v.close,
        }
    } else {
        ConnView { bytes_read: 0, hdrend_off: 0, content_length: 0, ..v }
    }
}

impl Connection {
    pub closed spec fn wf(&self) -> bool {
        &&& self.buf@.len() == RECV_BUF_LEN
        &&& self.hdrend_off <= RECV_BUF_LEN
    }

    /// A fresh connection: an empty buffer of zero bytes.
    pub fn new() -> (r: Connection)
        ensures
            r.wf(),
            r@ == (ConnView {
                buf: Seq::new(RECV_BUF_LEN as nat, |j: int| 0u8),
                bytes_read: 0,
                hdrend_off: 0,
                content_length: 0,
                close: false,
            }),
    {
        let mut buf: Vec<u8> = Vec::new();
        let mut i: usize = 0;
        while i < RECV_BUF_LEN
            invariant
                i <= RECV_BUF_LEN,
                buf@ == Seq::new(i as nat, |j: int| 0u8),
            decreases RECV_BUF_LEN - i,
        {
            buf.push(0);
            i = i + 1;
            assert(buf@ =~= Seq::new(i as nat, |j: int| 0u8));
        }
        let r = Connection { buf, bytes_read: 0, hdrend_off: 0, content_length: 0, close: false };
        assert(r@.buf =~= Seq::new(RECV_BUF_LEN as nat, |j: int| 0u8));
        r
    }

    /// How many bytes the next read may take: the free part of the buffer,
    /// or a whole buffer's worth that is read and dropped once it is full.
    pub fn read_room(&self) -> (r: usize)
        requires
            self.wf(),
        ensures
            r == if self@.bytes_read < RECV_BUF_LEN { RECV_BUF_LEN - self@.bytes_read } else { RECV_BUF_LEN as int },
    {
        if self.bytes_read < RECV_BUF_LEN { RECV_BUF_LEN - self.bytes_read } else { RECV_BUF_LEN }
    }

    /// The count of bytes read so far.
    pub fn bytes_read(&self) -> (r: usize)
        ensures
            r == self@.bytes_read,
    {
        self.bytes_read
    }

    /// Takes bytes just read: stored while the buffer has room, else only
    /// counted.
    pub fn received(&mut self, data: &[u8])
        requires
            old(self).wf(),
            data@.len() <= (if old(self)@.bytes_read < RECV_BUF_LEN { RECV_BUF_LEN - old(self)@.bytes_read } else { RECV_BUF_LEN as int }),
            old(self)@.bytes_read + data@.len() <= usize::MAX,
        ensures
            final(self).wf(),
            final(self)@ == (ConnView {
                buf: if old(self)@.bytes_read < RECV_BUF_LEN {
                    Seq::new(RECV_BUF_LEN as nat, |j: int|
                        if old(self)@.bytes_read <= j < old(self)@.bytes_read + data@.len() { data@[j - old(self)@.bytes_read] } else { old(self)@.buf[j] })
                } else {
                    old(self)@.buf
                },
                bytes_read: old(self)@.bytes_read + data@.len(),
                ..old(self)@
            }),
    {
        let n = data.len();
        if self.bytes_read < RECV_BUF_LEN {
            let start = self.bytes_read;
            let ghost old_buf = self.buf@;
            let mut i: usize = 0;
            while i < n
                invariant
                    n == data@.len(),
                    start + n <= RECV_BUF_LEN,
                    i <= n,
                    self.buf@.len() == RECV_BUF_LEN,
                    old_buf.len() == RECV_BUF_LEN,
                    self.bytes_read == old(self).bytes_read,
                    self.hdrend_off == old(self).hdrend_off,
                    self.content_length == old(self).content_length,
                    self.close == old(self).close,
                    start == old(self).bytes_read,
                    forall|j: int| 0 <= j < RECV_BUF_LEN ==> #[trigger] self.buf@[j] == if start <= j < start + i { data@[j - start] } else { old_buf[j] },
                decreases n - i,
            {
                self.buf.set(start + i, data[i]);
                i = i + 1;
            }
            assert(self.buf@ =~= Seq::new(RECV_BUF_LEN as nat, |j: int|
                if start <= j < start + n { data@[j - start] } else { old_buf[j] }));
        }
        self.bytes_read = self.bytes_read + n;
    }

}

fn content_length_exec(v: &[u8]) -> (r: usize)
    ensures
        r == content_length_value(v@),
{
    if str_from_utf8(v).is_err() {
        return 0;
    }
    match parse_int(v, 10, false, 0, usize::MAX as i128) {
        Ok(n) => n as usize,
        Err(_) => 0,
    }
}

fn apply_headers_exec(hdr: &[u8], close: bool, len: usize) -> (r: (bool, usize))
    ensures
        (r.0, r.1 as int) == apply_headers(headers_spec(hdr@), close, len as int),
{
    let hs = http_headers(hdr);
    let ghost hv = header_views(hs@);
    let n = hs.len();
    let mut c = close;
    let mut l = len;
    let conn_name = "connection".as_bytes();
    let close_value = "close".as_bytes();
    let cl_name = "content-length".as_bytes();
    let mut i: usize = 0;
    assert(hv.take(0) =~= Seq::<(Seq<u8>, Seq<u8>)>::empty());
    while i < n
        invariant
            n == hs@.len(),
            i <= n,
            hv == header_views(hs@),
            hv == headers_spec(hdr@),
            conn_name@ == "connection".spec_bytes(),
            close_value@ == "close".spec_bytes(),
            cl_name@ == "content-length".spec_bytes(),
            (c, l as int) == apply_headers(hv.take(i as int), close, len as int),
        decreases n - i,
    {
        assert(hv.take(i + 1).drop_last() =~= hv.take(i as int));
        assert(hv.take(i + 1).last() == hs@[i as int]@);
        if eq_ignore_case(hs[i].name.as_slice(), conn_name) && eq_ignore_case(hs[i].value.as_slice(), close_value) {
            c = true;
        }
        if eq_ignore_case(hs[i].name.as_slice(), cl_name) {
            l = content_length_exec(hs[i].value.as_slice());
        }
        i = i + 1;
    }
    assert(hv.take(n as int) =~= hv);
    (c, l)
}

impl Connection {
    /// The header state after looking for the end of the header.
    fn scanned(&self) -> (r: (usize, bool, usize))
        requires
            self.wf(),
        ensures
            r.0 == scan_header(self@).hdrend_off,
            r.1 == scan_header(self@).close,
            r.2 == scan_header(self@).content_length,
            r.0 <= RECV_BUF_LEN,
    {
        if self.hdrend_off != 0 {
            return (self.hdrend_off, self.close, self.content_length);
        }
        let blank: [u8; 4] = [13, 10, 13, 10];
        assert(blank@ =~= blank_line());
        match memmem(self.buf.as_slice(), blank.as_slice()) {
            None => (self.hdrend_off, self.close, self.content_length),
            Some(off) => {
                let hdr = &self.buf.as_slice()[0..off + 2];
                let (c, l) = apply_headers_exec(hdr, self.close, self.content_length);
                (off + 4, c, l)
            },
        }
    }

    /// Whether `next_request` would overflow adding the header and content
    /// lengths.
    pub fn request_overflows(&self) -> (r: bool)
        requires
            self.wf(),
        ensures
            r == request_overflows(self@),
    {
        let (h, _c, l) = self.scanned();
        h > usize::MAX - l
    }

    /// Looks for the end of the header and, once header and content are
    /// complete, takes the request from the buffer.
    pub fn next_request(&mut self) -> (r: Result<Option<Request>, RequestError>)
        requires
            old(self).wf(),
            !request_overflows(old(self)@),
        ensures
            final(self).wf(),
            final(self)@ == scan_header(old(self)@),
            !request_ready(scan_header(old(self)@)) ==> r matches Ok(None),
            request_ready(scan_header(old(self)@)) ==> match request_of(scan_header(old(self)@)) {
                Err(e) => r == Err::<Option<Request>, RequestError>(e),
                Ok((url, content)) => r matches Ok(Some(q)) && q.url@ == url && q.content@ == content
                    && q.close == scan_header(old(self)@).close,
            },
    {
        let (h, c, l) = self.scanned();
        self.hdrend_off = h;
        self.close = c;
        self.content_length = l;
        assert(self@ == scan_header(old(self)@));
        if self.bytes_read < h + l {
            return Ok(None);
        }
        let hdr = &self.buf.as_slice()[0..h];
        let fields = split_bytes(hdr, 32);
        proof {
            lemma_split_on_nonempty(hdr@, 32);
            lemma_bytes_deep_view(fields@[0]);
        }
        if !(bytes_eq(fields[0].as_slice(), "GET".as_bytes()) || bytes_eq(fields[0].as_slice(), "POST".as_bytes())) {
            return Err(RequestError::BadMethod);
        }
        if fields.len() < 2 {
            return Err(RequestError::BadUrl);
        }
        proof {
            lemma_bytes_deep_view(fields@[1]);
        }
        let end = if h + l < RECV_BUF_LEN { h + l } else { RECV_BUF_LEN };
        let url = to_vec(fields[1].as_slice());
        let content = to_vec(&self.buf.as_slice()[h..end]);
        Ok(Some(Request { url, content, close: c }))
    }

    /// Whether `finish_request` would copy from beyond the buffer.
    pub fn finish_overflows(&self) -> (r: bool)
        requires
            self.wf(),
        ensures
            r == finish_overflows(self@),
    {
        self.content_length < RECV_BUF_LEN - self.hdrend_off && self.bytes_read > RECV_BUF_LEN
    }

    /// Drops a served request: bytes read beyond it move to the front.
    pub fn finish_request(&mut self)
        requires
            old(self).wf(),
            request_ready(old(self)@),
            !finish_overflows(old(self)@),
        ensures
            final(self).wf(),
            final(self)@ == finished(old(self)@),
    {
        let used = self.hdrend_off + self.content_length;
        if used < RECV_BUF_LEN {
            let moved = self.bytes_read - used;
            let ghost old_buf = self.buf@;
            let mut j: usize = 0;
            while j < moved
                invariant
                    j <= moved,
                    used + moved == old(self).bytes_read,
                    old(self).bytes_read <= RECV_BUF_LEN,
                    old_buf.len() == RECV_BUF_LEN,
                    self.buf@.len() == RECV_BUF_LEN,
                    self.bytes_read == old(self).bytes_read,
                    self.close == old(self).close,
                    forall|k: int| 0 <= k < RECV_BUF_LEN ==> #[trigger] self.buf@[k] == if k < j { old_buf[used + k] } else { old_buf[k] },
                decreases moved - j,
            {
                let b = self.buf[used + j];
                self.buf.set(j, b);
                j = j + 1;
            }
            assert(self.buf@ =~= finished(old(self)@).buf);
            self.bytes_read = moved;
        } else {
            self.bytes_read = 0;
        }
        self.hdrend_off = 0;
        self.content_length = 0;
    }
}

/// A header that asks to close the connection: named `Connection` and with
/// the value `close`, in any case.
pub open spec fn asks_close(h: (Seq<u8>, Seq<u8>)) -> bool {
    ascii_lower(h.0) == "connection".spec_bytes() && ascii_lower(h.1) == "close".spec_bytes()
}

/// A header that gives the content length: named `Content-Length` in any
/// case.
pub open spec fn gives_length(h: (Seq<u8>, Seq<u8>)) -> bool {
    ascii_lower(h.0) == "content-length".spec_bytes()
}

/// What the headers of a request set: the connection closes after it
/// exactly when it was to close already or some header is
/// `Connection: close`; the content length is that of the last
/// `Content-Length` header, or stays as it was where there is none.
pub proof fn lemma_header_effects(hs: Seq<(Seq<u8>, Seq<u8>)>, close: bool, len: int)
    ensures
        apply_headers(hs, close, len).0 == (close || exists|i: int| 0 <= i < hs.len() && asks_close(#[trigger] hs[i])),
        (forall|i: int| 0 <= i < hs.len() ==> !gives_length(#[trigger] hs[i])) ==> apply_headers(hs, close, len).1 == len,
        forall|j: int| 0 <= j < hs.len() && gives_length(#[trigger] hs[j])
            && (forall|k: int| j < k < hs.len() ==> !gives_length(#[trigger] hs[k]))
            ==> apply_headers(hs, close, len).1 == content_length_value(hs[j].1),
    decreases hs.len(),
{
    if hs.len() > 0 {
        let prev = hs.drop_last();
        lemma_header_effects(prev, close, len);
        let h = hs.last();
        assert(forall|i: int| 0 <= i < prev.len() ==> #[trigger] prev[i] == hs[i]);
        if asks_close(h) {
            assert(asks_close(hs[hs.len() - 1]));
        }
        if (exists|i: int| 0 <= i < hs.len() && asks_close(#[trigger] hs[i])) && !asks_close(h) {
            let i = choose|i: int| 0 <= i < hs.len() && asks_close(#[trigger] hs[i]);
            assert(i < prev.len());
            assert(asks_close(prev[i]));
        }
        assert forall|j: int| 0 <= j < hs.len() && gives_length(#[trigger] hs[j])
            && (forall|k: int| j < k < hs.len() ==> !gives_length(#[trigger] hs[k]))
            implies apply_headers(hs, close, len).1 == content_length_value(hs[j].1) by {
            if j < hs.len() - 1 {
                assert(!gives_length(hs[hs.len() - 1]));
                assert(gives_length(prev[j]));
                assert forall|k: int| j < k < prev.len() implies !gives_length(#[trigger] prev[k]) by {
                    assert(!gives_length(hs[k]));
                }
            }
        }
        if forall|i: int| 0 <= i < hs.len() ==> !gives_length(#[trigger] hs[i]) {
            assert(!gives_length(hs[hs.len() - 1]));
            assert forall|i: int| 0 <= i < prev.len() implies !gives_length(#[trigger] prev[i]) by {
                assert(!gives_length(hs[i]));
            }
        }
    }
}

/// Once the end of a request's header is found, the connection closes after
/// the request exactly when some header line before it is
/// `Connection: close` (or it was to close already).
pub proof fn lemma_close_flag(v: ConnView)
    requires
        v.hdrend_off == 0,
        first_occurrence(v.buf, blank_line()) is Some,
    ensures
        scan_header(v).close == (v.close || exists|i: int|
            0 <= i < headers_spec(v.buf.subrange(0, first_occurrence(v.buf, blank_line()).unwrap() + 2)).len()
            && asks_close(#[trigger] headers_spec(v.buf.subrange(0, first_occurrence(v.buf, blank_line()).unwrap() + 2))[i])),
{
    let off = first_occurrence(v.buf, blank_line()).unwrap();
    lemma_header_effects(headers_spec(v.buf.subrange(0, off + 2)), v.close, v.content_length);
}

} // verus!
