//! The client's requests as the built-in server reads them.

use vstd::prelude::*;
use vstd::string::*;
use crate::bytes::{
    ascii_lower, first_occurrence, lacks, lemma_first_occurrence, lemma_first_occurrence_is, lemma_lacks_concat, occurs_at,
};
use crate::conn::{apply_headers, request_of, request_overflows, request_ready, scan_header, ConnView, RequestError, RECV_BUF_LEN};
use crate::http::{blank_line, colon_space, header_of_line, headers_of_lines, headers_spec, request_head_spec};
use crate::text::{lemma_split_on_concat, lemma_split_on_none, split_on};

verus! {

/// The bytes of the texts a request head is made of.
proof fn lemma_head_texts()
    ensures
        "GET".spec_bytes() == seq![71u8, 69, 84],
        " ".spec_bytes() == seq![32u8],
        " HTTP/1.1\r\nHost: ".spec_bytes() == seq![32u8, 72, 84, 84, 80, 47, 49, 46, 49, 13, 10, 72, 111, 115, 116, 58, 32],
        "\r\nUser-Agent: ".spec_bytes() == seq![13u8, 10, 85, 115, 101, 114, 45, 65, 103, 101, 110, 116, 58, 32],
        "\r\nAccept: */*\r\nConnection: close\r\n".spec_bytes() == seq![13u8, 10, 65, 99, 99, 101, 112, 116, 58, 32, 42, 47, 42, 13, 10,
            67, 111, 110, 110, 101, 99, 116, 105, 111, 110, 58, 32, 99, 108, 111, 115, 101, 13, 10],
        "\r\n".spec_bytes() == seq![13u8, 10],
        "".spec_bytes() == Seq::<u8>::empty(),
        "Cache-Control: no-cache\r\n".spec_bytes() == seq![67u8, 97, 99, 104, 101, 45, 67, 111, 110, 116, 114, 111, 108, 58, 32,
            110, 111, 45, 99, 97, 99, 104, 101, 13, 10],
        "connection".spec_bytes() == seq![99u8, 111, 110, 110, 101, 99, 116, 105, 111, 110],
        "close".spec_bytes() == seq![99u8, 108, 111, 115, 101],
        "content-length".spec_bytes().len() == 14,
{
    reveal_strlit("GET");
    reveal_strlit(" ");
    reveal_strlit(" HTTP/1.1\r\nHost: ");
    reveal_strlit("\r\nUser-Agent: ");
    reveal_strlit("\r\nAccept: */*\r\nConnection: close\r\n");
    reveal_strlit("\r\n");
    reveal_strlit("");
    reveal_strlit("Cache-Control: no-cache\r\n");
    assert(is_ascii("GET"));
    assert(is_ascii(" "));
    assert(is_ascii(" HTTP/1.1\r\nHost: "));
    assert(is_ascii("\r\nUser-Agent: "));
    assert(is_ascii("\r\nAccept: */*\r\nConnection: close\r\n"));
    assert(is_ascii("\r\n"));
    assert(is_ascii(""));
    assert(is_ascii("Cache-Control: no-cache\r\n"));
    reveal_strlit("connection");
    reveal_strlit("close");
    reveal_strlit("content-length");
    assert(is_ascii("connection"));
    assert(is_ascii("close"));
    assert(is_ascii("content-length"));
    is_ascii_spec_bytes("connection");
    is_ascii_spec_bytes("close");
    is_ascii_spec_bytes("content-length");
    assert("connection".spec_bytes() =~= seq![99u8, 111, 110, 110, 101, 99, 116, 105, 111, 110]);
    assert("close".spec_bytes() =~= seq![99u8, 108, 111, 115, 101]);
    is_ascii_spec_bytes("GET");
    is_ascii_spec_bytes(" ");
    is_ascii_spec_bytes(" HTTP/1.1\r\nHost: ");
    is_ascii_spec_bytes("\r\nUser-Agent: ");
    is_ascii_spec_bytes("\r\nAccept: */*\r\nConnection: close\r\n");
    is_ascii_spec_bytes("\r\n");
    is_ascii_spec_bytes("");
    is_ascii_spec_bytes("Cache-Control: no-cache\r\n");
    assert("GET".spec_bytes() =~= seq![71u8, 69, 84]);
    assert(" ".spec_bytes() =~= seq![32u8]);
    assert(" HTTP/1.1\r\nHost: ".spec_bytes() =~= seq![32u8, 72, 84, 84, 80, 47, 49, 46, 49, 13, 10, 72, 111, 115, 116, 58, 32]);
    assert("\r\nUser-Agent: ".spec_bytes() =~= seq![13u8, 10, 85, 115, 101, 114, 45, 65, 103, 101, 110, 116, 58, 32]);
    assert("\r\nAccept: */*\r\nConnection: close\r\n".spec_bytes() =~= seq![13u8, 10, 65, 99, 99, 101, 112, 116, 58, 32, 42, 47, 42, 13, 10,
        67, 111, 110, 110, 101, 99, 116, 105, 111, 110, 58, 32, 99, 108, 111, 115, 101, 13, 10]);
    assert("\r\n".spec_bytes() =~= seq![13u8, 10]);
    assert("".spec_bytes() =~= Seq::<u8>::empty());
    assert("Cache-Control: no-cache\r\n".spec_bytes() =~= seq![67u8, 97, 99, 104, 101, 45, 67, 111, 110, 116, 114, 111, 108, 58, 32,
        110, 111, 45, 99, 97, 99, 104, 101, 13, 10]);
}


/// A header line: name, `: `, value and `\r`.
pub open spec fn header_text(name: Seq<u8>, value: Seq<u8>) -> Seq<u8> {
    name + colon_space() + value + seq![13u8]
}

/// The lines of the head of a `GET` request for `path` on `host`, as the
/// client builds it, with the `Cache-Control: no-cache` line of the
/// download test where `no_cache` holds; each without its `\n`.
pub open spec fn get_lines(host: Seq<u8>, path: Seq<u8>, user_agent: Seq<u8>, no_cache: bool) -> Seq<Seq<u8>> {
    let first = seq![71u8, 69, 84, 32] + path + seq![32u8, 72, 84, 84, 80, 47, 49, 46, 49, 13];
    let common = seq![
        first,
        header_text(seq![72u8, 111, 115, 116], host),
        header_text(seq![85u8, 115, 101, 114, 45, 65, 103, 101, 110, 116], user_agent),
        header_text(seq![65u8, 99, 99, 101, 112, 116], seq![42u8, 47, 42]),
        header_text(seq![67u8, 111, 110, 110, 101, 99, 116, 105, 111, 110], seq![99u8, 108, 111, 115, 101]),
    ];
    if no_cache {
        common.push(header_text(seq![67u8, 97, 99, 104, 101, 45, 67, 111, 110, 116, 114, 111, 108], seq![110u8, 111, 45, 99, 97, 99, 104, 101]))
    } else {
        common
    }
}

/// Lines, each followed by `\n`.
pub open spec fn joined(ls: Seq<Seq<u8>>) -> Seq<u8>
    decreases ls.len(),
{
    if ls.len() == 0 {
        Seq::empty()
    } else {
        ls[0] + seq![10u8] + joined(ls.drop_first())
    }
}

/// The extra header lines of the client's `GET` requests.
pub open spec fn get_extra(no_cache: bool) -> Seq<u8> {
    if no_cache { "Cache-Control: no-cache\r\n".spec_bytes() } else { "".spec_bytes() }
}

proof fn lemma_joined_cons(a: Seq<u8>, rest: Seq<Seq<u8>>)
    ensures
        joined(seq![a] + rest) == a + seq![10u8] + joined(rest),
{
    assert((seq![a] + rest).drop_first() =~= rest);
}

proof fn lemma_joined_one(a: Seq<u8>)
    ensures
        joined(seq![a]) == a + seq![10u8],
{
    lemma_joined_cons(a, Seq::empty());
    assert(seq![a] + Seq::<Seq<u8>>::empty() =~= seq![a]);
    assert(a + seq![10u8] + Seq::<u8>::empty() =~= a + seq![10u8]);
}

/// The request head as the client writes it, regrouped by lines.
proof fn lemma_head_pieces(host: Seq<u8>, path: Seq<u8>, user_agent: Seq<u8>, extra: Seq<u8>)
    ensures
        request_head_spec(host, path, "GET".spec_bytes(), user_agent, extra)
            == (seq![71u8, 69, 84, 32] + path + seq![32u8, 72, 84, 84, 80, 47, 49, 46, 49, 13, 10])
                + (header_text(seq![72u8, 111, 115, 116], host) + seq![10u8])
                + (header_text(seq![85u8, 115, 101, 114, 45, 65, 103, 101, 110, 116], user_agent) + seq![10u8])
                + seq![65u8, 99, 99, 101, 112, 116, 58, 32, 42, 47, 42, 13, 10,
                    67, 111, 110, 110, 101, 99, 116, 105, 111, 110, 58, 32, 99, 108, 111, 115, 101, 13, 10]
                + extra + seq![13u8, 10],
{
    lemma_head_texts();
    let t1a = seq![32u8, 72, 84, 84, 80, 47, 49, 46, 49, 13, 10];
    let t1b = seq![72u8, 111, 115, 116, 58, 32];
    let t2a = seq![13u8, 10];
    let t2b = seq![85u8, 115, 101, 114, 45, 65, 103, 101, 110, 116, 58, 32];
    let t3a = seq![13u8, 10];
    let t3b = seq![65u8, 99, 99, 101, 112, 116, 58, 32, 42, 47, 42, 13, 10,
        67, 111, 110, 110, 101, 99, 116, 105, 111, 110, 58, 32, 99, 108, 111, 115, 101, 13, 10];
    assert(t1a + t1b =~= " HTTP/1.1\r\nHost: ".spec_bytes());
    assert(t2a + t2b =~= "\r\nUser-Agent: ".spec_bytes());
    assert(t3a + t3b =~= "\r\nAccept: */*\r\nConnection: close\r\n".spec_bytes());
    let a1 = seq![71u8, 69, 84] + seq![32u8] + path + (t1a + t1b);
    let a2 = a1 + host + (t2a + t2b);
    let a3 = a2 + user_agent + (t3a + t3b);
    let q1 = seq![71u8, 69, 84, 32] + path + t1a;
    let q2 = header_text(seq![72u8, 111, 115, 116], host) + seq![10u8];
    let q3 = header_text(seq![85u8, 115, 101, 114, 45, 65, 103, 101, 110, 116], user_agent) + seq![10u8];
    assert(a1 =~= q1 + t1b);
    assert(a2 =~= q1 + q2 + t2b);
    assert(a3 =~= q1 + q2 + q3 + t3b);
}

#[verifier::spinoff_prover]
#[verifier::rlimit(50)]
proof fn lemma_get_head_lines(host: Seq<u8>, path: Seq<u8>, user_agent: Seq<u8>, no_cache: bool)
    ensures
        request_head_spec(host, path, "GET".spec_bytes(), user_agent, get_extra(no_cache))
            == joined(get_lines(host, path, user_agent, no_cache)) + seq![13u8, 10],
{
    lemma_head_texts();
    lemma_head_pieces(host, path, user_agent, get_extra(no_cache));
    let ls = get_lines(host, path, user_agent, no_cache);
    let nl = seq![10u8];
    let l0 = ls[0];
    let l1 = ls[1];
    let l2 = ls[2];
    let l3 = ls[3];
    let l4 = ls[4];
    let tail = if no_cache { seq![ls[5]] } else { Seq::<Seq<u8>>::empty() };
    let x = if no_cache { ls[5] + nl } else { Seq::<u8>::empty() };
    assert(joined(tail) == x) by {
        if no_cache {
            lemma_joined_one(ls[5]);
        }
    }
    assert(get_extra(no_cache) =~= x);
    lemma_joined_cons(l4, tail);
    lemma_joined_cons(l3, seq![l4] + tail);
    lemma_joined_cons(l2, seq![l3] + (seq![l4] + tail));
    lemma_joined_cons(l1, seq![l2] + (seq![l3] + (seq![l4] + tail)));
    lemma_joined_cons(l0, seq![l1] + (seq![l2] + (seq![l3] + (seq![l4] + tail))));
    assert(ls =~= seq![l0] + (seq![l1] + (seq![l2] + (seq![l3] + (seq![l4] + tail)))));
    let j4 = l4 + nl + x;
    let j3 = l3 + nl + j4;
    let j2 = l2 + nl + j3;
    let j1 = l1 + nl + j2;
    let j0 = l0 + nl + j1;
    assert(joined(ls) == j0);
    let t3b = seq![65u8, 99, 99, 101, 112, 116, 58, 32, 42, 47, 42, 13, 10,
        67, 111, 110, 110, 101, 99, 116, 105, 111, 110, 58, 32, 99, 108, 111, 115, 101, 13, 10];
    let q1 = l0 + nl;
    let q2 = l1 + nl;
    let q3 = l2 + nl;
    assert(q1 =~= seq![71u8, 69, 84, 32] + path + seq![32u8, 72, 84, 84, 80, 47, 49, 46, 49, 13, 10]);
    assert(j3 =~= t3b + x);
    assert(j0 =~= q1 + (q2 + (q3 + (t3b + x))));
    assert(q1 + q2 + q3 + t3b + x + seq![13u8, 10] =~= q1 + (q2 + (q3 + (t3b + x))) + seq![13u8, 10]);
}
proof fn lemma_split_joined(ls: Seq<Seq<u8>>)
    requires
        forall|k: int| 0 <= k < ls.len() ==> lacks(#[trigger] ls[k], 10),
    ensures
        split_on(joined(ls), 10) == ls.push(Seq::<u8>::empty()),
    decreases ls.len(),
{
    if ls.len() == 0 {
        assert(split_on(Seq::<u8>::empty(), 10) =~= seq![Seq::<u8>::empty()]);
        assert(ls.push(Seq::<u8>::empty()) =~= seq![Seq::<u8>::empty()]);
    } else {
        let rest = ls.drop_first();
        assert(forall|k: int| 0 <= k < rest.len() ==> #[trigger] rest[k] == ls[k + 1]);
        lemma_split_joined(rest);
        assert(lacks(ls[0], 10));
        lemma_split_on_none(ls[0], 10);
        lemma_split_on_concat(ls[0], joined(rest), 10);
        assert(seq![ls[0]] + rest.push(Seq::<u8>::empty()) =~= ls.push(Seq::<u8>::empty()));
    }
}

/// A line break is never followed by a `\r`.
pub open spec fn no_cr_after_lf(s: Seq<u8>) -> bool {
    forall|j: int| 0 <= j && j + 1 < s.len() && #[trigger] s[j] == 10 ==> s[j + 1] != 13
}

pub(crate) proof fn lemma_joined_no_cr_after_lf(ls: Seq<Seq<u8>>)
    requires
        forall|k: int| 0 <= k < ls.len() ==> lacks(#[trigger] ls[k], 10),
        forall|k: int| 0 <= k < ls.len() ==> #[trigger] ls[k].len() > 0 && ls[k][0] != 13,
    ensures
        no_cr_after_lf(joined(ls)),
    decreases ls.len(),
{
    if ls.len() > 0 {
        let rest = ls.drop_first();
        assert(forall|k: int| 0 <= k < rest.len() ==> #[trigger] rest[k] == ls[k + 1]);
        lemma_joined_no_cr_after_lf(rest);
        let l = ls[0];
        let j = joined(rest);
        let s = joined(ls);
        assert(s == l + seq![10u8] + j);
        assert(lacks(l, 10));
        if rest.len() > 0 {
            assert(j == rest[0] + seq![10u8] + joined(rest.drop_first()));
            assert(j[0] == rest[0][0]);
        }
        assert forall|q: int| 0 <= q && q + 1 < s.len() && #[trigger] s[q] == 10 implies s[q + 1] != 13 by {
            if q < l.len() {
                assert(s[q] == l[q]);
            } else if q == l.len() {
                assert(s[q + 1] == j[0]);
            } else {
                assert(s[q] == j[q - l.len() - 1]);
                assert(s[q + 1] == j[q - l.len()]);
            }
        }
    }
}

pub(crate) proof fn lemma_joined_ends(ls: Seq<Seq<u8>>)
    requires
        ls.len() > 0,
        ls.last().len() > 0,
        ls.last().last() == 13,
    ensures
        joined(ls).len() >= 2,
        joined(ls)[joined(ls).len() - 1] == 10,
        joined(ls)[joined(ls).len() - 2] == 13,
    decreases ls.len(),
{
    let rest = ls.drop_first();
    if rest.len() == 0 {
        assert(joined(rest) =~= Seq::<u8>::empty());
        assert(joined(ls) =~= ls[0] + seq![10u8]);
    } else {
        assert(rest.last() == ls.last());
        lemma_joined_ends(rest);
    }
}

/// The state of a new connection (`Connection::new`) once it has
/// received `data` (`Connection::received`).
pub open spec fn received_fresh(data: Seq<u8>) -> ConnView {
    ConnView {
        buf: Seq::new(RECV_BUF_LEN as nat, |j: int| if 0 <= j < data.len() { data[j] } else { 0u8 }),
        bytes_read: data.len() as int,
        hdrend_off: 0,
        content_length: 0,
        close: false,
    }
}

/// Where the blank line of a request head is found.
proof fn lemma_blank_found(p: Seq<u8>)
    requires
        no_cr_after_lf(p),
        p.len() >= 2,
        p[p.len() - 1] == 10,
        p[p.len() - 2] == 13,
        p.len() + 2 <= RECV_BUF_LEN,
    ensures
        first_occurrence(received_fresh(p + seq![13u8, 10]).buf, blank_line()) == Some(p.len() - 2),
{
    let req = p + seq![13u8, 10];
    let buf = received_fresh(req).buf;
    let k = p.len() - 2;
    assert(buf.subrange(k, k + 4) =~= blank_line());
    assert forall|i: int| 0 <= i < k implies !occurs_at(buf, blank_line(), i) by {
        if occurs_at(buf, blank_line(), i) {
            assert(buf.subrange(i, i + 4)[1] == buf[i + 1]);
            assert(buf.subrange(i, i + 4)[2] == buf[i + 2]);
            assert(buf[i + 1] == p[i + 1]);
            assert(buf[i + 2] == p[i + 2]);
        }
    }
    lemma_first_occurrence_is(buf, blank_line(), 0, k);
}

pub(crate) proof fn lemma_header_text(name: Seq<u8>, value: Seq<u8>)
    requires
        lacks(name, 58),
    ensures
        header_of_line(header_text(name, value)) == seq![(name, value)],
{
    let l = header_text(name, value);
    let k = name.len() as int;
    assert(l.subrange(k, k + 2) =~= colon_space());
    assert forall|j: int| 0 <= j < k implies !occurs_at(l, colon_space(), j) by {
        if occurs_at(l, colon_space(), j) {
            assert(l.subrange(j, j + 2)[0] == l[j]);
            assert(l[j] == name[j]);
        }
    }
    lemma_first_occurrence_is(l, colon_space(), 0, k);
    assert(l.subrange(0, k) =~= name);
    assert(l.subrange(k + 2, l.len() - 1) =~= value);
}

proof fn lemma_no_header(l: Seq<u8>)
    requires
        lacks(l, 58),
    ensures
        header_of_line(l) == Seq::<(Seq<u8>, Seq<u8>)>::empty(),
{
    lemma_first_occurrence(l, colon_space());
    if let Some(k) = first_occurrence(l, colon_space()) {
        assert(l.subrange(k, k + 2)[0] == l[k]);
    }
}

proof fn lemma_headers_cons(l: Seq<u8>, rest: Seq<Seq<u8>>)
    requires
        l.len() > 0,
        l.last() == 13,
    ensures
        headers_of_lines(seq![l] + rest) == header_of_line(l) + headers_of_lines(rest),
{
    assert((seq![l] + rest).drop_first() =~= rest);
}

/// The headers of the client's `GET` requests.
pub open spec fn get_headers(host: Seq<u8>, user_agent: Seq<u8>, no_cache: bool) -> Seq<(Seq<u8>, Seq<u8>)> {
    let common = seq![
        (seq![72u8, 111, 115, 116], host),
        (seq![85u8, 115, 101, 114, 45, 65, 103, 101, 110, 116], user_agent),
        (seq![65u8, 99, 99, 101, 112, 116], seq![42u8, 47, 42]),
        (seq![67u8, 111, 110, 110, 101, 99, 116, 105, 111, 110], seq![99u8, 108, 111, 115, 101]),
    ];
    if no_cache {
        common.push((seq![67u8, 97, 99, 104, 101, 45, 67, 111, 110, 116, 114, 111, 108], seq![110u8, 111, 45, 99, 97, 99, 104, 101]))
    } else {
        common
    }
}

#[verifier::rlimit(40)]
#[verifier::spinoff_prover]
proof fn lemma_get_header_lines(host: Seq<u8>, path: Seq<u8>, user_agent: Seq<u8>, no_cache: bool)
    requires
        lacks(path, 58),
    ensures
        headers_of_lines(get_lines(host, path, user_agent, no_cache).push(Seq::<u8>::empty()))
            == get_headers(host, user_agent, no_cache),
{
    let ls = get_lines(host, path, user_agent, no_cache);
    let l0 = ls[0];
    assert(lacks(l0, 58)) by {
        assert forall|i: int| 0 <= i < l0.len() implies #[trigger] l0[i] != 58 by {
            if 4 <= i < 4 + path.len() {
                assert(l0[i] == path[i - 4]);
            }
        }
    }
    lemma_no_header(l0);
    let hh = seq![72u8, 111, 115, 116];
    let ua = seq![85u8, 115, 101, 114, 45, 65, 103, 101, 110, 116];
    let ac = seq![65u8, 99, 99, 101, 112, 116];
    let co = seq![67u8, 111, 110, 110, 101, 99, 116, 105, 111, 110];
    let cc = seq![67u8, 97, 99, 104, 101, 45, 67, 111, 110, 116, 114, 111, 108];
    assert(lacks(hh, 58) && lacks(ua, 58) && lacks(ac, 58) && lacks(co, 58) && lacks(cc, 58));
    lemma_header_text(hh, host);
    lemma_header_text(ua, user_agent);
    lemma_header_text(ac, seq![42u8, 47, 42]);
    lemma_header_text(co, seq![99u8, 108, 111, 115, 101]);
    lemma_header_text(cc, seq![110u8, 111, 45, 99, 97, 99, 104, 101]);
    let e = Seq::<u8>::empty();
    let last = if no_cache { seq![ls[5], e] } else { seq![e] };
    assert(headers_of_lines(seq![e]) == Seq::<(Seq<u8>, Seq<u8>)>::empty());
    let tail_h = if no_cache { seq![(cc, seq![110u8, 111, 45, 99, 97, 99, 104, 101])] } else { Seq::<(Seq<u8>, Seq<u8>)>::empty() };
    assert(headers_of_lines(last) == tail_h) by {
        if no_cache {
            lemma_headers_cons(ls[5], seq![e]);
            assert(seq![ls[5]] + seq![e] =~= last);
        }
    }
    lemma_headers_cons(ls[4], last);
    lemma_headers_cons(ls[3], seq![ls[4]] + last);
    lemma_headers_cons(ls[2], seq![ls[3]] + (seq![ls[4]] + last));
    lemma_headers_cons(ls[1], seq![ls[2]] + (seq![ls[3]] + (seq![ls[4]] + last)));
    lemma_headers_cons(l0, seq![ls[1]] + (seq![ls[2]] + (seq![ls[3]] + (seq![ls[4]] + last))));
    assert(ls.push(e) =~= seq![l0] + (seq![ls[1]] + (seq![ls[2]] + (seq![ls[3]] + (seq![ls[4]] + last)))));
    assert(get_headers(host, user_agent, no_cache) =~= Seq::<(Seq<u8>, Seq<u8>)>::empty()
        + (seq![(hh, host)] + (seq![(ua, user_agent)] + (seq![(ac, seq![42u8, 47, 42])]
        + (seq![(co, seq![99u8, 108, 111, 115, 101])] + tail_h)))));
}

/// What the client's `GET` headers set: the connection closes after the
/// request, and no content length is given.
#[verifier::rlimit(40)]
#[verifier::spinoff_prover]
proof fn lemma_get_headers_apply(host: Seq<u8>, user_agent: Seq<u8>, no_cache: bool)
    ensures
        apply_headers(get_headers(host, user_agent, no_cache), false, 0) == (true, 0int),
{
    lemma_head_texts();
    let hs = get_headers(host, user_agent, no_cache);
    let co = seq![67u8, 111, 110, 110, 101, 99, 116, 105, 111, 110];
    let cl = seq![99u8, 108, 111, 115, 101];
    assert(ascii_lower(co) =~= "connection".spec_bytes());
    assert(ascii_lower(cl) =~= "close".spec_bytes());
    assert forall|k: int| 0 <= k < hs.len() implies #[trigger] ascii_lower(hs[k].0) != "content-length".spec_bytes() by {
        assert(ascii_lower(hs[k].0).len() == hs[k].0.len());
    }
    let h4 = seq![hs[0], hs[1], hs[2], hs[3]];
    assert(h4.drop_last() =~= seq![hs[0], hs[1], hs[2]]);
    assert(seq![hs[0], hs[1], hs[2]].drop_last() =~= seq![hs[0], hs[1]]);
    assert(seq![hs[0], hs[1]].drop_last() =~= seq![hs[0]]);
    assert(seq![hs[0]].drop_last() =~= Seq::<(Seq<u8>, Seq<u8>)>::empty());
    assert(ascii_lower(hs[0].0) != "content-length".spec_bytes());
    assert(ascii_lower(hs[1].0) != "content-length".spec_bytes());
    assert(ascii_lower(hs[2].0) != "content-length".spec_bytes());
    assert(ascii_lower(hs[3].0) != "content-length".spec_bytes());
    assert(apply_headers(Seq::<(Seq<u8>, Seq<u8>)>::empty(), false, 0) == (false, 0int));
    assert(seq![hs[0]].last() == hs[0]);
    assert(apply_headers(seq![hs[0]], false, 0).1 == 0);
    assert(seq![hs[0], hs[1]].last() == hs[1]);
    assert(apply_headers(seq![hs[0], hs[1]], false, 0).1 == 0);
    assert(seq![hs[0], hs[1], hs[2]].last() == hs[2]);
    let r3 = apply_headers(seq![hs[0], hs[1], hs[2]], false, 0);
    assert(r3.1 == 0);
    assert(h4.last() == hs[3]);
    assert(apply_headers(h4, false, 0) == (true, 0int));
    if no_cache {
        assert(ascii_lower(hs[4].0) != "content-length".spec_bytes());
        assert(hs =~= h4.push(hs[4]));
        assert(h4.push(hs[4]).drop_last() =~= h4);
        assert(h4.push(hs[4]).last() == hs[4]);
    } else {
        assert(hs =~= h4);
    }
}

proof fn lemma_get_lines_shape(host: Seq<u8>, path: Seq<u8>, user_agent: Seq<u8>, no_cache: bool)
    requires
        lacks(path, 10),
        lacks(host, 10),
        lacks(user_agent, 10),
    ensures
        forall|k: int| 0 <= k < get_lines(host, path, user_agent, no_cache).len() ==>
            lacks(#[trigger] get_lines(host, path, user_agent, no_cache)[k], 10),
        forall|k: int| 0 <= k < get_lines(host, path, user_agent, no_cache).len() ==>
            #[trigger] get_lines(host, path, user_agent, no_cache)[k].len() > 0
                && get_lines(host, path, user_agent, no_cache)[k][0] != 13,
        get_lines(host, path, user_agent, no_cache).len() > 0,
        get_lines(host, path, user_agent, no_cache).last().len() > 0,
        get_lines(host, path, user_agent, no_cache).last().last() == 13,
{
    let ls = get_lines(host, path, user_agent, no_cache);
    let a = seq![71u8, 69, 84, 32];
    let b = seq![32u8, 72, 84, 84, 80, 47, 49, 46, 49, 13];
    assert(lacks(a, 10) && lacks(b, 10));
    lemma_lacks_concat(a, path, 10);
    lemma_lacks_concat(a + path, b, 10);
    assert forall|name: Seq<u8>, value: Seq<u8>| lacks(name, 10) && lacks(value, 10) implies
        #[trigger] lacks(header_text(name, value), 10) by {
        assert(lacks(colon_space(), 10));
        assert(lacks(seq![13u8], 10));
        lemma_lacks_concat(name, colon_space(), 10);
        lemma_lacks_concat(name + colon_space(), value, 10);
        lemma_lacks_concat(name + colon_space() + value, seq![13u8], 10);
    }
    assert(lacks(seq![72u8, 111, 115, 116], 10));
    assert(lacks(seq![85u8, 115, 101, 114, 45, 65, 103, 101, 110, 116], 10));
    assert(lacks(seq![65u8, 99, 99, 101, 112, 116], 10));
    assert(lacks(seq![42u8, 47, 42], 10));
    assert(lacks(seq![67u8, 111, 110, 110, 101, 99, 116, 105, 111, 110], 10));
    assert(lacks(seq![99u8, 108, 111, 115, 101], 10));
    assert(lacks(seq![67u8, 97, 99, 104, 101, 45, 67, 111, 110, 116, 114, 111, 108], 10));
    assert(lacks(seq![110u8, 111, 45, 99, 97, 99, 104, 101], 10));
    assert forall|k: int| 0 <= k < ls.len() implies lacks(#[trigger] ls[k], 10) by {
        if k == 0 {
            assert(ls[0] == a + path + b);
        }
    }
    assert forall|k: int| 0 <= k < ls.len() implies #[trigger] ls[k].len() > 0 && ls[k][0] != 13 by {
        if k == 0 {
            assert(ls[0][0] == 71);
        }
    }
}

/// A `GET` request as the client builds it (plain for the latency and
/// server-list fetches, with `Cache-Control: no-cache` for the download
/// test), once a new connection of the built-in server has received it
/// whole, is taken at once as a request for its path, without content,
/// after which the connection closes.  The path holds no space, `:` or
/// line break, and host and user agent no line break.
#[verifier::rlimit(40)]
#[verifier::spinoff_prover]
pub proof fn lemma_client_get_is_served(host: Seq<u8>, path: Seq<u8>, user_agent: Seq<u8>, no_cache: bool)
    requires
        lacks(path, 32),
        lacks(path, 58),
        lacks(path, 10),
        lacks(host, 10),
        lacks(user_agent, 10),
        request_head_spec(host, path, "GET".spec_bytes(), user_agent, get_extra(no_cache)).len() <= RECV_BUF_LEN,
    ensures
        ({
            let v = received_fresh(request_head_spec(host, path, "GET".spec_bytes(), user_agent, get_extra(no_cache)));
            &&& !request_overflows(v)
            &&& request_ready(scan_header(v))
            &&& request_of(scan_header(v)) == Ok::<(Seq<u8>, Seq<u8>), RequestError>((path, Seq::<u8>::empty()))
            &&& scan_header(v).close
        }),
{
    let req = request_head_spec(host, path, "GET".spec_bytes(), user_agent, get_extra(no_cache));
    let ls = get_lines(host, path, user_agent, no_cache);
    let p = joined(ls);
    lemma_get_head_lines(host, path, user_agent, no_cache);
    lemma_get_lines_shape(host, path, user_agent, no_cache);
    lemma_joined_no_cr_after_lf(ls);
    lemma_joined_ends(ls);
    lemma_blank_found(p);
    let v = received_fresh(req);
    let off = p.len() - 2;
    assert(v.buf.subrange(0, off + 2) =~= p);
    lemma_split_joined(ls);
    lemma_get_header_lines(host, path, user_agent, no_cache);
    lemma_get_headers_apply(host, user_agent, no_cache);
    let w = scan_header(v);
    assert(w.hdrend_off == req.len());
    assert(w.close && w.content_length == 0);
    lemma_head_texts();
    let g = seq![71u8, 69, 84];
    let rest = req.subrange(5 + path.len() as int, req.len() as int);
    assert(req =~= g + seq![32u8] + (path + seq![32u8] + rest)) by {
        lemma_head_pieces(host, path, user_agent, get_extra(no_cache));
    }
    assert(lacks(g, 32));
    lemma_split_on_none(g, 32);
    lemma_split_on_none(path, 32);
    lemma_split_on_concat(path, rest, 32);
    lemma_split_on_concat(g, path + seq![32u8] + rest, 32);
    assert(w.buf.subrange(0, w.hdrend_off) =~= req);
    let fields = split_on(req, 32);
    assert(fields[0] == g);
    assert(fields[1] == path);
    assert(w.buf.subrange(w.hdrend_off, w.hdrend_off) =~= Seq::<u8>::empty());
}

} // verus!
