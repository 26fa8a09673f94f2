//! Chunked transfer: a response whose chunks are written out as the
//! transfer encoding lays them down reads back as their data.

use vstd::prelude::*;
use vstd::string::*;
use crate::bytes::{ascii_lower, first_occurrence, lacks, lemma_first_occurrence_is, lemma_first_occurrence_none, occurs_at};
use crate::http::{
    blank_line, body_spec, chunk_size_len, colon_space, crlf, decode_chunks, header_of_line, headers_of_lines, headers_spec,
    is_chunked, HttpFault,
};
use crate::numbers::{hex_text, hex_text_upper, lemma_parse_hex, lemma_parse_hex_upper, parse_int_spec, scan_digits, IntErrorKind};
use crate::serving::{header_text, joined, lemma_header_text, lemma_joined_ends, lemma_joined_no_cr_after_lf, no_cr_after_lf};
use crate::text::{all_ascii, lemma_ascii_utf8, lemma_split_on_concat, lemma_split_on_none, lemma_split_on_nonempty, lemma_split_on_pieces, split_on};

verus! {

/// One chunk as the transfer encoding writes it: its size in lowercase
/// hexadecimal, a line end, the data and another line end.
pub open spec fn chunk_text(c: Seq<u8>) -> Seq<u8> {
    hex_text(c.len()) + crlf() + c + crlf()
}

/// The chunks `cs` written one after the other.
pub open spec fn chunks_text(cs: Seq<Seq<u8>>) -> Seq<u8>
    decreases cs.len(),
{
    if cs.len() == 0 { Seq::empty() } else { chunk_text(cs[0]) + chunks_text(cs.drop_first()) }
}

/// The data of the chunks `cs`, joined.
pub open spec fn chunks_data(cs: Seq<Seq<u8>>) -> Seq<u8>
    decreases cs.len(),
{
    if cs.len() == 0 { Seq::empty() } else { cs[0] + chunks_data(cs.drop_first()) }
}

/// The chunk of size zero that ends a chunked body, with the blank line
/// after it.
pub open spec fn last_chunk() -> Seq<u8> {
    seq![48u8, 13, 10, 13, 10]
}

/// Chunks that can be written: none is empty (an empty one would end the
/// body) and each size leaves room to add 2 in a `usize`.
pub open spec fn writable_chunks(cs: Seq<Seq<u8>>) -> bool {
    forall|k: int| 0 <= k < cs.len() ==> #[trigger] cs[k].len() > 0 && cs[k].len() + 2 <= usize::MAX
}

proof fn lemma_chunk_size_len(h: Seq<u8>, s: Seq<u8>)
    requires
        forall|i: int| 0 <= i < h.len() ==> #[trigger] h[i] != 59 && h[i] != 13,
    ensures
        chunk_size_len(h + s) == h.len() + chunk_size_len(s),
    decreases h.len(),
{
    if h.len() > 0 {
        assert((h + s)[0] == h[0]);
        assert((h + s).drop_first() =~= h.drop_first() + s);
        lemma_chunk_size_len(h.drop_first(), s);
    } else {
        assert(h + s =~= s);
    }
}

proof fn lemma_decode_last()
    ensures
        decode_chunks(last_chunk()) == Some(Ok::<Seq<u8>, HttpFault>(Seq::<u8>::empty())),
{
    let body = last_chunk();
    assert(body.drop_first()[0] == 13);
    assert(chunk_size_len(body.drop_first()) == 0);
    assert(chunk_size_len(body) == 1);
    let t = body.take(1);
    assert(t =~= seq![48u8]);
    assert(all_ascii(t));
    lemma_ascii_utf8(t);
    assert(t.drop_first() =~= Seq::<u8>::empty());
    assert(scan_digits(0, t, 16, false, 0, usize::MAX as int) == Ok::<int, IntErrorKind>(0));
}

/// A hexadecimal size text, in either letter case.
pub open spec fn hex_size_char(x: u8) -> bool {
    (48 <= x <= 57) || (65 <= x <= 70) || (97 <= x <= 102)
}

proof fn lemma_decode_sized(h: Seq<u8>, c: Seq<u8>, r: Seq<u8>)
    requires
        h.len() >= 1,
        forall|i: int| 0 <= i < h.len() ==> hex_size_char(#[trigger] h[i]),
        scan_digits(0, h, 16, false, 0, usize::MAX as int) == Ok::<int, IntErrorKind>(c.len() as int),
        c.len() > 0,
        c.len() + 2 <= usize::MAX,
        r.len() > 0,
    ensures
        decode_chunks(h + crlf() + c + crlf() + r) == crate::http::prepend(c, decode_chunks(r)),
{
    let tail = crlf() + c + crlf() + r;
    let body = h + crlf() + c + crlf() + r;
    assert(body =~= h + tail);
    assert forall|i: int| 0 <= i < h.len() implies #[trigger] h[i] != 59 && h[i] != 13 by {
        assert(hex_size_char(h[i]));
    }
    lemma_chunk_size_len(h, tail);
    assert(tail[0] == 13);
    assert(chunk_size_len(tail) == 0);
    let t = body.take(h.len() as int);
    assert(t =~= h);
    assert(all_ascii(h)) by {
        assert forall|i: int| 0 <= i < h.len() implies #[trigger] h[i] < 128 by {
            assert(hex_size_char(h[i]));
        }
    }
    lemma_ascii_utf8(h);
    assert(hex_size_char(h[0]));
    assert(parse_int_spec(h, 16, false, 0, usize::MAX as int) == Ok::<int, IntErrorKind>(c.len() as int));
    let k = h.len() as int;
    assert(body.subrange(k, k + 2) =~= crlf());
    assert forall|j: int| 0 <= j < k implies !occurs_at(body, crlf(), j) by {
        if occurs_at(body, crlf(), j) {
            assert(body.subrange(j, j + 2)[0] == body[j]);
            assert(body[j] == h[j]);
            assert(hex_size_char(h[j]));
        }
    }
    lemma_first_occurrence_is(body, crlf(), 0, k);
    let rest_ = body.skip(k + 2);
    assert(rest_ =~= c + crlf() + r);
    assert(rest_.skip(c.len() as int + 2) =~= r);
    assert(rest_.take(c.len() as int) =~= c);
}

proof fn lemma_decode_one(c: Seq<u8>, r: Seq<u8>)
    requires
        c.len() > 0,
        c.len() + 2 <= usize::MAX,
        r.len() > 0,
    ensures
        decode_chunks(chunk_text(c) + r) == crate::http::prepend(c, decode_chunks(r)),
{
    let h = hex_text(c.len());
    lemma_parse_hex(c.len(), 0, usize::MAX as int);
    assert forall|i: int| 0 <= i < h.len() implies hex_size_char(#[trigger] h[i]) by {
        let x = h[i];
        assert((48 <= x <= 57) || (97 <= x <= 102));
    }
    lemma_decode_sized(h, c, r);
    assert(chunk_text(c) + r =~= h + crlf() + c + crlf() + r);
}

/// One chunk written with its size in upper-case hexadecimal.
pub open spec fn chunk_text_upper(c: Seq<u8>) -> Seq<u8> {
    hex_text_upper(c.len()) + crlf() + c + crlf()
}

/// The chunks `cs` written one after the other, sizes in upper case.
pub open spec fn chunks_text_upper(cs: Seq<Seq<u8>>) -> Seq<u8>
    decreases cs.len(),
{
    if cs.len() == 0 { Seq::empty() } else { chunk_text_upper(cs[0]) + chunks_text_upper(cs.drop_first()) }
}

/// Chunks written with upper-case hexadecimal sizes and ended by the last
/// chunk decode to their data: a size is read in either letter case.
pub proof fn lemma_decode_chunks_upper(cs: Seq<Seq<u8>>)
    requires
        writable_chunks(cs),
    ensures
        decode_chunks(chunks_text_upper(cs) + last_chunk()) == Some(Ok::<Seq<u8>, HttpFault>(chunks_data(cs))),
    decreases cs.len(),
{
    if cs.len() == 0 {
        assert(chunks_text_upper(cs) + last_chunk() =~= last_chunk());
        lemma_decode_last();
    } else {
        let c = cs[0];
        let rest = cs.drop_first();
        assert(writable_chunks(rest)) by {
            assert forall|k: int| 0 <= k < rest.len() implies #[trigger] rest[k].len() > 0 && rest[k].len() + 2 <= usize::MAX by {
                assert(rest[k] == cs[k + 1]);
            }
        }
        lemma_decode_chunks_upper(rest);
        let r = chunks_text_upper(rest) + last_chunk();
        let h = hex_text_upper(c.len());
        lemma_parse_hex_upper(c.len(), 0, usize::MAX as int);
        assert forall|i: int| 0 <= i < h.len() implies hex_size_char(#[trigger] h[i]) by {
            let x = h[i];
            assert((48 <= x <= 57) || (65 <= x <= 70));
        }
        lemma_decode_sized(h, c, r);
        assert(chunks_text_upper(cs) + last_chunk() =~= h + crlf() + c + crlf() + r);
    }
}

/// Chunks written out and ended by the last chunk decode to their data.
pub proof fn lemma_decode_chunks(cs: Seq<Seq<u8>>)
    requires
        writable_chunks(cs),
    ensures
        decode_chunks(chunks_text(cs) + last_chunk()) == Some(Ok::<Seq<u8>, HttpFault>(chunks_data(cs))),
    decreases cs.len(),
{
    if cs.len() == 0 {
        assert(chunks_text(cs) + last_chunk() =~= last_chunk());
        lemma_decode_last();
    } else {
        let c = cs[0];
        let rest = cs.drop_first();
        assert(writable_chunks(rest)) by {
            assert forall|k: int| 0 <= k < rest.len() implies #[trigger] rest[k].len() > 0 && rest[k].len() + 2 <= usize::MAX by {
                assert(rest[k] == cs[k + 1]);
            }
        }
        lemma_decode_chunks(rest);
        let r = chunks_text(rest) + last_chunk();
        assert(chunks_text(cs) + last_chunk() =~= chunk_text(c) + r);
        lemma_decode_one(c, r);
    }
}

/// Lines, each followed by `\r\n`.
pub open spec fn crlf_lines(ls: Seq<Seq<u8>>) -> Seq<u8>
    decreases ls.len(),
{
    if ls.len() == 0 { Seq::empty() } else { ls[0] + crlf() + crlf_lines(ls.drop_first()) }
}

/// The lines, each with a `\r` added.
pub open spec fn with_cr(ls: Seq<Seq<u8>>) -> Seq<Seq<u8>> {
    Seq::new(ls.len(), |i: int| ls[i].push(13u8))
}

proof fn lemma_crlf_joined(ls: Seq<Seq<u8>>)
    ensures
        crlf_lines(ls) == joined(with_cr(ls)),
    decreases ls.len(),
{
    if ls.len() > 0 {
        lemma_crlf_joined(ls.drop_first());
        assert(with_cr(ls).drop_first() =~= with_cr(ls.drop_first()));
        assert(ls[0] + crlf() =~= ls[0].push(13u8) + seq![10u8]);
        assert(ls[0] + crlf() + crlf_lines(ls.drop_first()) =~= (ls[0] + crlf()) + crlf_lines(ls.drop_first()));
    }
}

proof fn lemma_split_joined_then(ls: Seq<Seq<u8>>, z: Seq<u8>)
    requires
        forall|k: int| 0 <= k < ls.len() ==> lacks(#[trigger] ls[k], 10),
    ensures
        split_on(joined(ls) + z, 10) == ls + split_on(z, 10),
    decreases ls.len(),
{
    if ls.len() == 0 {
        assert(joined(ls) + z =~= z);
        assert(ls + split_on(z, 10) =~= split_on(z, 10));
    } else {
        let rest = ls.drop_first();
        assert(forall|k: int| 0 <= k < rest.len() ==> #[trigger] rest[k] == ls[k + 1]);
        lemma_split_joined_then(rest, z);
        assert(lacks(ls[0], 10));
        lemma_split_on_none(ls[0], 10);
        assert(joined(ls) + z =~= ls[0] + seq![10u8] + (joined(rest) + z));
        lemma_split_on_concat(ls[0], joined(rest) + z, 10);
        assert(seq![ls[0]] + (rest + split_on(z, 10)) =~= ls + split_on(z, 10));
    }
}

proof fn lemma_headers_append(a: Seq<Seq<u8>>, m: Seq<Seq<u8>>)
    requires
        forall|k: int| 0 <= k < a.len() ==> #[trigger] a[k].len() > 0 && a[k].last() == 13,
    ensures
        headers_of_lines(a + m) == headers_of_lines(a) + headers_of_lines(m),
    decreases a.len(),
{
    if a.len() == 0 {
        assert(a + m =~= m);
    } else {
        let rest = a.drop_first();
        assert(forall|k: int| 0 <= k < rest.len() ==> #[trigger] rest[k] == a[k + 1]);
        lemma_headers_append(rest, m);
        assert((a + m)[0] == a[0]);
        assert((a + m).drop_first() =~= rest + m);
    }
}

proof fn lemma_te_text()
    ensures
        lacks("transfer-encoding".spec_bytes(), 58),
{
    reveal_strlit("transfer-encoding");
    assert(is_ascii("transfer-encoding"));
    is_ascii_spec_bytes("transfer-encoding");
}

/// The first blank line of a message whose head is the lines `ls`, each
/// ended by `\r\n`, is the one that ends the head.
proof fn lemma_head_end(ls: Seq<Seq<u8>>, b: Seq<u8>)
    requires
        ls.len() > 0,
        forall|k: int| 0 <= k < ls.len() ==> #[trigger] ls[k].len() > 0 && lacks(ls[k], 13) && lacks(ls[k], 10),
    ensures
        crlf_lines(ls).len() >= 2,
        first_occurrence(crlf_lines(ls) + crlf() + b, blank_line()) == Some(crlf_lines(ls).len() as int - 2),
        (crlf_lines(ls) + crlf() + b).skip(crlf_lines(ls).len() as int + 2) == b,
{
    let a = with_cr(ls);
    lemma_crlf_joined(ls);
    let p = joined(a);
    let msg = crlf_lines(ls) + crlf() + b;
    assert(msg =~= p + (crlf() + b));
    assert forall|k: int| 0 <= k < a.len() implies lacks(#[trigger] a[k], 10) by {
        assert(lacks(ls[k], 10));
        assert forall|i: int| 0 <= i < a[k].len() implies #[trigger] a[k][i] != 10 by {
            if i < ls[k].len() {
                assert(a[k][i] == ls[k][i]);
            }
        }
    }
    assert forall|k: int| 0 <= k < a.len() implies #[trigger] a[k].len() > 0 && a[k][0] != 13 && a[k].last() == 13 by {
        assert(ls[k].len() > 0 && lacks(ls[k], 13));
        assert(a[k][0] == ls[k][0]);
    }
    lemma_joined_no_cr_after_lf(a);
    lemma_joined_ends(a);
    {
        let k = p.len() - 2;
        assert(msg.subrange(k, k + 4) =~= blank_line());
        assert forall|i: int| 0 <= i < k implies !occurs_at(msg, blank_line(), i) by {
            if occurs_at(msg, blank_line(), i) {
                assert(msg.subrange(i, i + 4)[1] == msg[i + 1]);
                assert(msg.subrange(i, i + 4)[2] == msg[i + 2]);
                assert(msg[i + 1] == p[i + 1]);
                assert(msg[i + 2] == p[i + 2]);
            }
        }
        lemma_first_occurrence_is(msg, blank_line(), 0, k);
        assert(msg.skip(k + 4) =~= b);
    }
}

/// A response whose header announces chunked transfer has as body the
/// decoding of what follows its blank line.
proof fn lemma_chunked_message(ls: Seq<Seq<u8>>, t: int, name: Seq<u8>, value: Seq<u8>, b: Seq<u8>)
    requires
        forall|k: int| 0 <= k < ls.len() ==> #[trigger] ls[k].len() > 0 && lacks(ls[k], 13) && lacks(ls[k], 10),
        0 <= t < ls.len(),
        ls[t] == name + colon_space() + value,
        ascii_lower(name) == "transfer-encoding".spec_bytes(),
        ascii_lower(value) == "chunked".spec_bytes(),
    ensures
        body_spec(crlf_lines(ls) + crlf() + b) == decode_chunks(b),
{
    lemma_head_end(ls, b);
    let a = with_cr(ls);
    lemma_crlf_joined(ls);
    let p = joined(a);
    let msg = crlf_lines(ls) + crlf() + b;
    assert(msg =~= p + (crlf() + b));
    assert forall|k: int| 0 <= k < a.len() implies lacks(#[trigger] a[k], 10) by {
        assert(lacks(ls[k], 10));
        assert forall|i: int| 0 <= i < a[k].len() implies #[trigger] a[k][i] != 10 by {
            if i < ls[k].len() {
                assert(a[k][i] == ls[k][i]);
            }
        }
    }
    assert forall|k: int| 0 <= k < a.len() implies #[trigger] a[k].len() > 0 && a[k].last() == 13 by {
        assert(ls[k].len() > 0);
    }
    // the header announces chunked transfer
    lemma_split_joined_then(a, crlf() + b);
    let mm = split_on(crlf() + b, 10);
    lemma_headers_append(a, mm);
    let before = a.take(t);
    let from_t = a.skip(t);
    assert(a =~= before + from_t);
    assert forall|q: int| 0 <= q < before.len() implies #[trigger] before[q].len() > 0 && before[q].last() == 13 by {
        assert(before[q] == a[q]);
    }
    lemma_headers_append(before, from_t);
    assert(from_t[0] == a[t]);
    assert(a[t] =~= header_text(name, value));
    lemma_te_text();
    assert(lacks(name, 58)) by {
        assert forall|i: int| 0 <= i < name.len() implies #[trigger] name[i] != 58 by {
            assert(ascii_lower(name)[i] == crate::bytes::lower_byte(name[i]));
            assert("transfer-encoding".spec_bytes()[i] != 58);
        }
    }
    lemma_header_text(name, value);
    assert(headers_of_lines(from_t) == header_of_line(a[t]) + headers_of_lines(from_t.drop_first()));
    let hs = headers_spec(msg);
    let idx = headers_of_lines(before).len() as int;
    assert(hs == headers_of_lines(before) + (seq![(name, value)] + headers_of_lines(from_t.drop_first())) + headers_of_lines(mm));
    assert(hs[idx] == (name, value));
    assert(ascii_lower(headers_spec(msg)[idx].0) == "transfer-encoding".spec_bytes()
        && ascii_lower(headers_spec(msg)[idx].1) == "chunked".spec_bytes());
    assert(is_chunked(msg));
}


/// A response whose header lines (the status line first) are non-empty and
/// hold no `\r` or `\n`, one of them `Transfer-Encoding: chunked` in any
/// letter case, followed by a blank line and by chunks written out and
/// ended by the last chunk, has a body (`http_body`) that is the chunks'
/// data.
pub proof fn lemma_chunked_body(ls: Seq<Seq<u8>>, t: int, name: Seq<u8>, value: Seq<u8>, cs: Seq<Seq<u8>>)
    requires
        forall|k: int| 0 <= k < ls.len() ==> #[trigger] ls[k].len() > 0 && lacks(ls[k], 13) && lacks(ls[k], 10),
        0 <= t < ls.len(),
        ls[t] == name + colon_space() + value,
        ascii_lower(name) == "transfer-encoding".spec_bytes(),
        ascii_lower(value) == "chunked".spec_bytes(),
        writable_chunks(cs),
    ensures
        body_spec(crlf_lines(ls) + crlf() + chunks_text(cs) + last_chunk()) == Some(Ok::<Seq<u8>, HttpFault>(chunks_data(cs))),
{
    let b = chunks_text(cs) + last_chunk();
    assert(crlf_lines(ls) + crlf() + chunks_text(cs) + last_chunk() =~= crlf_lines(ls) + crlf() + b);
    lemma_chunked_message(ls, t, name, value, b);
    lemma_decode_chunks(cs);
}

/// The same with the chunk sizes written in upper-case hexadecimal: a
/// chunk size is its hexadecimal value, read in either letter case.
pub proof fn lemma_chunked_body_upper(ls: Seq<Seq<u8>>, t: int, name: Seq<u8>, value: Seq<u8>, cs: Seq<Seq<u8>>)
    requires
        forall|k: int| 0 <= k < ls.len() ==> #[trigger] ls[k].len() > 0 && lacks(ls[k], 13) && lacks(ls[k], 10),
        0 <= t < ls.len(),
        ls[t] == name + colon_space() + value,
        ascii_lower(name) == "transfer-encoding".spec_bytes(),
        ascii_lower(value) == "chunked".spec_bytes(),
        writable_chunks(cs),
    ensures
        body_spec(crlf_lines(ls) + crlf() + chunks_text_upper(cs) + last_chunk()) == Some(Ok::<Seq<u8>, HttpFault>(chunks_data(cs))),
{
    let b = chunks_text_upper(cs) + last_chunk();
    assert(crlf_lines(ls) + crlf() + chunks_text_upper(cs) + last_chunk() =~= crlf_lines(ls) + crlf() + b);
    lemma_chunked_message(ls, t, name, value, b);
    lemma_decode_chunks_upper(cs);
}

/// The header lines of the headers `hs`, each `name: value`.
pub open spec fn header_lines(hs: Seq<(Seq<u8>, Seq<u8>)>) -> Seq<Seq<u8>> {
    Seq::new(hs.len(), |i: int| hs[i].0 + colon_space() + hs[i].1)
}

proof fn lemma_no_header(l: Seq<u8>)
    requires
        lacks(l, 58),
    ensures
        header_of_line(l.push(13u8)) == Seq::<(Seq<u8>, Seq<u8>)>::empty(),
{
    let m = l.push(13u8);
    assert forall|j: int| 0 <= j implies !occurs_at(m, colon_space(), j) by {
        if occurs_at(m, colon_space(), j) {
            assert(m.subrange(j, j + 2)[0] == m[j]);
            if j < l.len() {
                assert(m[j] == l[j]);
            }
        }
    }
    lemma_first_occurrence_none(m, colon_space(), 0);
}

proof fn lemma_headers_of_texts(hs: Seq<(Seq<u8>, Seq<u8>)>)
    requires
        forall|k: int| 0 <= k < hs.len() ==> lacks(#[trigger] hs[k].0, 58),
    ensures
        headers_of_lines(with_cr(header_lines(hs))) == hs,
    decreases hs.len(),
{
    let a = with_cr(header_lines(hs));
    if hs.len() > 0 {
        let rest = hs.drop_first();
        assert forall|k: int| 0 <= k < rest.len() implies lacks(#[trigger] rest[k].0, 58) by {
            assert(rest[k] == hs[k + 1]);
        }
        lemma_headers_of_texts(rest);
        assert(a.drop_first() =~= with_cr(header_lines(rest)));
        assert(a[0] =~= header_text(hs[0].0, hs[0].1));
        lemma_header_text(hs[0].0, hs[0].1);
        assert(seq![(hs[0].0, hs[0].1)] + rest =~= hs);
    } else {
        assert(hs =~= Seq::<(Seq<u8>, Seq<u8>)>::empty());
    }
}

/// A message whose head is a status line without `:` and header lines
/// `name: value` (no line end in either, no `:` in a name), each ended by
/// `\r\n`, then a blank line, has as headers (`http_headers`) the pairs
/// written, in order, followed by what the body's leading lines that end
/// in `\r` hold in the same form.
pub proof fn lemma_headers_read(status: Seq<u8>, hs: Seq<(Seq<u8>, Seq<u8>)>, body: Seq<u8>)
    requires
        lacks(status, 13) && lacks(status, 10) && lacks(status, 58),
        forall|k: int| 0 <= k < hs.len() ==> lacks(#[trigger] hs[k].0, 58) && lacks(hs[k].0, 13) && lacks(hs[k].0, 10)
            && lacks(hs[k].1, 13) && lacks(hs[k].1, 10),
    ensures
        headers_spec(crlf_lines(seq![status] + header_lines(hs)) + crlf() + body) == hs + headers_spec(body),
{
    let ls = seq![status] + header_lines(hs);
    let a = with_cr(ls);
    lemma_crlf_joined(ls);
    let msg = crlf_lines(ls) + crlf() + body;
    assert(msg =~= joined(a) + (crlf() + body));
    assert forall|k: int| 0 <= k < a.len() implies lacks(#[trigger] a[k], 10) && a[k].len() > 0 && a[k].last() == 13 by {
        if k == 0 {
            assert(ls[0] == status);
            assert forall|i: int| 0 <= i < a[k].len() implies #[trigger] a[k][i] != 10 by {
                if i < status.len() { assert(a[k][i] == status[i]); }
            }
        } else {
            let h = hs[k - 1];
            assert(ls[k] == h.0 + colon_space() + h.1);
            assert forall|i: int| 0 <= i < a[k].len() implies #[trigger] a[k][i] != 10 by {
                let l = ls[k];
                if i < h.0.len() {
                    assert(a[k][i] == h.0[i]);
                } else if i >= h.0.len() + 2 && i < l.len() {
                    assert(a[k][i] == h.1[i - h.0.len() - 2]);
                } else if i < l.len() {
                    assert(a[k][i] == l[i]);
                }
            }
        }
    }
    lemma_split_joined_then(a, crlf() + body);
    lemma_split_on_none(seq![13u8], 10);
    assert(crlf() + body =~= seq![13u8] + seq![10u8] + body);
    lemma_split_on_concat(seq![13u8], body, 10);
    let m = split_on(crlf() + body, 10);
    assert(m == seq![seq![13u8]] + split_on(body, 10));
    lemma_headers_append(a, m);
    lemma_no_header(Seq::<u8>::empty());
    assert(Seq::<u8>::empty().push(13u8) =~= seq![13u8]);
    assert(m[0] == seq![13u8]);
    assert(m.drop_first() =~= split_on(body, 10));
    assert(headers_of_lines(m) == headers_spec(body));
    lemma_no_header(status);
    assert(a[0] == status.push(13u8));
    assert(a.drop_first() =~= with_cr(header_lines(hs)));
    lemma_headers_of_texts(hs);
    assert(headers_of_lines(a) == hs);
}


/// A response whose head is a status line and header lines `name: value`,
/// none of them `Transfer-Encoding: chunked` in any letter case, has as
/// body (`http_body`) everything after the blank line that ends the head,
/// as it stands.
pub proof fn lemma_plain_body(status: Seq<u8>, hs: Seq<(Seq<u8>, Seq<u8>)>, body: Seq<u8>)
    requires
        status.len() > 0,
        lacks(status, 13) && lacks(status, 10) && lacks(status, 58),
        forall|k: int| 0 <= k < hs.len() ==> lacks(#[trigger] hs[k].0, 58) && lacks(hs[k].0, 13) && lacks(hs[k].0, 10)
            && lacks(hs[k].1, 13) && lacks(hs[k].1, 10),
        forall|k: int| 0 <= k < hs.len() ==> !(ascii_lower(#[trigger] hs[k].0) == "transfer-encoding".spec_bytes()
            && ascii_lower(hs[k].1) == "chunked".spec_bytes()),
        lacks(body, 13),
    ensures
        body_spec(crlf_lines(seq![status] + header_lines(hs)) + crlf() + body) == Some(Ok::<Seq<u8>, HttpFault>(body)),
{
    let ls = seq![status] + header_lines(hs);
    assert forall|k: int| 0 <= k < ls.len() implies #[trigger] ls[k].len() > 0 && lacks(ls[k], 13) && lacks(ls[k], 10) by {
        if k > 0 {
            let h = hs[k - 1];
            let l = ls[k];
            assert(l == h.0 + colon_space() + h.1);
            assert forall|i: int| 0 <= i < l.len() implies #[trigger] l[i] != 13 && l[i] != 10 by {
                if i < h.0.len() {
                    assert(l[i] == h.0[i]);
                } else if i >= h.0.len() + 2 {
                    assert(l[i] == h.1[i - h.0.len() - 2]);
                }
            }
        }
    }
    lemma_head_end(ls, body);
    lemma_headers_read(status, hs, body);
    lemma_split_on_nonempty(body, 10);
    lemma_split_on_pieces(body, 10, 13);
    let first = split_on(body, 10)[0];
    assert(!crate::http::is_header_line(first)) by {
        if first.len() > 0 {
            assert(first[first.len() - 1] != 13);
        }
    }
    assert(headers_spec(body) =~= Seq::<(Seq<u8>, Seq<u8>)>::empty());
    let msg = crlf_lines(ls) + crlf() + body;
    assert(headers_spec(msg) =~= hs);
}

} // verus!
