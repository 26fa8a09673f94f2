//! Rows of the results file as the chart reads them.

use vstd::prelude::*;
use vstd::utf8::*;
use vstd::string::*;
use std::str::Utf8Error;
use crate::bytes::{lacks, lemma_lacks_concat, push_bytes, to_vec};
use crate::numbers::is_digit;
use crate::text::{
    lemma_bytes_deep_view, lemma_split_on_concat, lemma_split_on_none, lemma_split_on_nonempty, split_bytes, split_on, str_from_utf8,
};
use crate::timestamp::{
    clock_bytes, clock_limit, clock_text, lemma_clock_text_bytes, readable_limit, lemma_timestr_roundtrip, low32, parse_timestr_bytes, parse_timestr_spec, timestr_bytes_lack_field, timestr_fields,
};

verus! {

/// A line without the `\r` that ends it, if any.
pub open spec fn strip_cr(l: Seq<u8>) -> Seq<u8> {
    if l.len() > 0 && l.last() == 13 { l.drop_last() } else { l }
}

/// The lines of a text as `str::lines` yields them: the pieces between
/// `\n`s with one `\r` before each `\n` dropped, and no empty piece after a
/// final `\n`.
pub open spec fn text_lines(s: Seq<u8>) -> Seq<Seq<u8>> {
    let pieces = split_on(s, 10);
    let n = pieces.len();
    if pieces.last().len() == 0 {
        Seq::new((n - 1) as nat, |i: int| strip_cr(pieces[i]))
    } else {
        Seq::new(n, |i: int| if i < n - 1 { strip_cr(pieces[i]) } else { pieces[i] })
    }
}

/// The first (up to) six comma-separated fields of a line.
pub open spec fn line_fields(l: Seq<u8>) -> Seq<Seq<u8>> {
    let f = split_on(l, 44);
    if f.len() > 6 { f.take(6) } else { f }
}

/// A line that reading would stop on: it has four fields or more and its
/// timestamp lacks a field.
pub open spec fn line_stops(l: Seq<u8>) -> bool {
    line_fields(l).len() >= 4 && timestr_fields(line_fields(l)[0]) is None
}

/// A line becomes a row when it has four fields or more and its timestamp
/// reads; the row is the instant and the fields.
pub open spec fn row_of_line(l: Seq<u8>) -> Seq<(u32, Seq<Seq<u8>>)> {
    let f = line_fields(l);
    if f.len() < 4 {
        Seq::empty()
    } else {
        match parse_timestr_spec(f[0]) {
            Some(Ok(t)) => seq![(t, f)],
            _ => Seq::empty(),
        }
    }
}

pub open spec fn rows_of_lines(ls: Seq<Seq<u8>>) -> Seq<(u32, Seq<Seq<u8>>)>
    decreases ls.len(),
{
    if ls.len() == 0 {
        Seq::empty()
    } else {
        rows_of_lines(ls.drop_last()) + row_of_line(ls.last())
    }
}

/// The rows of a results file: every line after the first (the column
/// names) that has four fields or more and a readable timestamp.
pub open spec fn chart_rows_spec(data: Seq<u8>) -> Seq<(u32, Seq<Seq<u8>>)> {
    let ls = text_lines(data);
    if ls.len() == 0 { Seq::empty() } else { rows_of_lines(ls.drop_first()) }
}

/// Reading the file would stop on a line (see `line_stops`).
pub open spec fn chart_rows_stop(data: Seq<u8>) -> bool {
    valid_utf8(data) && exists|i: int| 1 <= i < text_lines(data).len() && line_stops(#[trigger] text_lines(data)[i])
}

/// A row of the results file.
#[derive(Debug)]
pub struct ChartRow {
    /// The instant of the test, in seconds since the epoch cut to 32 bits.
    pub time: u32,
    /// The first (up to) six fields of the line.
    pub fields: Vec<Vec<u8>>,
}

impl View for ChartRow {
    type V = (u32, Seq<Seq<u8>>);

    open spec fn view(&self) -> (u32, Seq<Seq<u8>>) {
        (self.time, self.fields.deep_view())
    }
}

pub open spec fn row_views(rs: Seq<ChartRow>) -> Seq<(u32, Seq<Seq<u8>>)> {
    rs.map_values(|r: ChartRow| r@)
}

fn strip_cr_exec(l: &[u8]) -> (r: &[u8])
    ensures
        r@ == strip_cr(l@),
{
    let n = l.len();
    if n > 0 && l[n - 1] == 13 {
        assert(l@.subrange(0, n - 1) =~= l@.drop_last());
        &l[0..n - 1]
    } else {
        l
    }
}

fn first_fields(l: &[u8]) -> (r: Vec<Vec<u8>>)
    ensures
        r.deep_view() == line_fields(l@),
{
    let mut f = split_bytes(l, 44);
    if f.len() > 6 {
        let ghost before = f.deep_view();
        f.truncate(6);
        assert(f.deep_view() =~= before.take(6));
    }
    f
}

/// Whether reading the rows of `data` would stop on a line.
pub fn chart_rows_stop_check(data: &[u8]) -> (r: bool)
    ensures
        r == chart_rows_stop(data@),
{
    if str_from_utf8(data).is_err() {
        return false;
    }
    let (lines, count) = lines_of(data);
    let mut i: usize = 1;
    while i < count
        invariant
            count == lines.deep_view().len(),
            lines.deep_view() == text_lines(data@),
            valid_utf8(data@),
            1 <= i,
            forall|j: int| 1 <= j < i && j < count ==> !line_stops(#[trigger] text_lines(data@)[j]),
        decreases count - i,
    {
        proof {
            lemma_bytes_deep_view(lines@[i as int]);
        }
        let f = first_fields(lines[i].as_slice());
        if f.len() >= 4 {
            proof {
                lemma_bytes_deep_view(f@[0]);
            }
            if timestr_bytes_lack_field(f[0].as_slice()) {
                proof {
                    let li = text_lines(data@)[i as int];
                    assert(lines@[i as int]@ == li);
                    assert(line_stops(li));
                    assert(valid_utf8(data@));
                }
                return true;
            }
        }
        i = i + 1;
    }
    false
}

fn lines_of(data: &[u8]) -> (r: (Vec<Vec<u8>>, usize))
    ensures
        r.0.deep_view() == text_lines(data@),
        r.1 == r.0@.len(),
{
    let pieces = split_bytes(data, 10);
    let ghost pv = pieces.deep_view();
    proof {
        lemma_split_on_nonempty(data@, 10);
    }
    let n = pieces.len();
    let last_empty = pieces[n - 1].len() == 0;
    let mut out: Vec<Vec<u8>> = Vec::new();
    let mut i: usize = 0;
    while i < n
        invariant
            n == pieces@.len(),
            n >= 1,
            pv == pieces.deep_view(),
            pv == split_on(data@, 10),
            last_empty == (pv.last().len() == 0),
            i <= n,
            last_empty ==> i <= n - 1 || out@.len() == n - 1,
            out@.len() == (if last_empty && i == n { n - 1 } else { i as int }),
            forall|j: int| 0 <= j < out@.len() ==> #[trigger] out@[j]@ == if j < n - 1 { strip_cr(pv[j]) } else { pv[j] },
        decreases n - i,
    {
        proof {
            lemma_bytes_deep_view(pieces@[i as int]);
        }
        if i < n - 1 {
            let l = strip_cr_exec(pieces[i].as_slice());
            out.push(to_vec(l));
        } else if !last_empty {
            out.push(to_vec(pieces[i].as_slice()));
        }
        i = i + 1;
    }
    let len = out.len();
    proof {
        assert forall|j: int| 0 <= j < out@.len() implies #[trigger] out@[j].deep_view() == text_lines(data@)[j] by {
            lemma_bytes_deep_view(out@[j]);
        }
        assert(out.deep_view() =~= text_lines(data@));
    }
    (out, len)
}

/// The rows of a results file for the chart.  Reading must not stop on a
/// line (see `chart_rows_stop_check`).
pub fn chart_rows(data: &[u8]) -> (r: Result<Vec<ChartRow>, Utf8Error>)
    requires
        !chart_rows_stop(data@),
    ensures
        r is Err <==> !valid_utf8(data@),
        r matches Ok(rows) ==> row_views(rows@) == chart_rows_spec(data@),
{
    if let Err(e) = str_from_utf8(data) {
        return Err(e);
    }
    let (lines, count) = lines_of(data);
    let ghost ls = text_lines(data@);
    let mut rows: Vec<ChartRow> = Vec::new();
    if count == 0 {
        assert(row_views(rows@) =~= Seq::empty());
        return Ok(rows);
    }
    let mut i: usize = 1;
    assert(ls.drop_first().take(0) =~= Seq::<Seq<u8>>::empty());
    assert(row_views(rows@) =~= Seq::empty());
    while i < count
        invariant
            count == ls.len(),
            lines.deep_view() == ls,
            ls == text_lines(data@),
            valid_utf8(data@),
            !chart_rows_stop(data@),
            1 <= i <= count,
            row_views(rows@) == rows_of_lines(ls.drop_first().take(i - 1)),
        decreases count - i,
    {
        proof {
            lemma_bytes_deep_view(lines@[i as int]);
            assert(ls.drop_first().take(i as int).drop_last() =~= ls.drop_first().take(i - 1));
            assert(ls.drop_first().take(i as int).last() == ls[i as int]);
        }
        let ghost before = row_views(rows@);
        let f = first_fields(lines[i].as_slice());
        if f.len() >= 4 {
            proof {
                lemma_bytes_deep_view(f@[0]);
                assert(!line_stops(ls[i as int]));
            }
            match parse_timestr_bytes(f[0].as_slice()) {
                Ok(t) => {
                    let ghost fv = f.deep_view();
                    rows.push(ChartRow { time: t, fields: f });
                    assert(row_views(rows@) =~= before + seq![(t, fv)]);
                },
                Err(_) => {
                    assert(row_views(rows@) =~= before + Seq::empty());
                },
            }
        } else {
            assert(row_views(rows@) =~= before + Seq::empty());
        }
        i = i + 1;
    }
    assert(ls.drop_first().take(count - 1) =~= ls.drop_first());
    Ok(rows)
}

fn copy_fields(f: &Vec<Vec<u8>>) -> (r: Vec<Vec<u8>>)
    ensures
        r.deep_view() == f.deep_view(),
{
    let mut out: Vec<Vec<u8>> = Vec::new();
    let mut i: usize = 0;
    while i < f.len()
        invariant
            i <= f@.len(),
            out@.len() == i,
            forall|j: int| 0 <= j < i ==> #[trigger] out@[j]@ == f@[j]@,
        decreases f@.len() - i,
    {
        out.push(to_vec(f[i].as_slice()));
        i = i + 1;
    }
    assert(out.deep_view() =~= f.deep_view());
    out
}

/// The points the chart draws: the rows as they are, except that a single
/// row is drawn twice, the second time one second later, so that it shows
/// as a line.
pub fn chart_points(rows: Vec<ChartRow>) -> (r: Vec<ChartRow>)
    requires
        rows@.len() == 1 ==> rows@[0].time < u32::MAX,
    ensures
        rows@.len() != 1 ==> row_views(r@) == row_views(rows@),
        rows@.len() == 1 ==> row_views(r@) == seq![rows@[0]@, ((rows@[0].time + 1) as u32, rows@[0]@.1)],
{
    if rows.len() != 1 {
        return rows;
    }
    let time = rows[0].time + 1;
    let fields = copy_fields(&rows[0].fields);
    let ghost first = rows@[0]@;
    let mut r = rows;
    r.push(ChartRow { time, fields });
    assert(row_views(r@) =~= seq![first, ((first.0 + 1) as u32, first.1)]);
    r
}

/// The column names that head a results file: one line.
pub const CSV_COLS: &'static str = "Timestamp,LatencyIdle(ms),LatencyDownload(ms),LatencyUpload(ms),Download(Mbps),Upload(Mbps),ClientPublicIP,ClientISP,ServerDescr,ServerHost,Error\n";

/// The text of each column of a finished test but its timestamp, as it is
/// to be stored.
pub struct ResultFields {
    pub latency_idle: Vec<u8>,
    pub latency_download: Vec<u8>,
    pub latency_upload: Vec<u8>,
    pub download: Vec<u8>,
    pub upload: Vec<u8>,
    pub client_ip: Vec<u8>,
    pub client_isp: Vec<u8>,
    pub server_descr: Vec<u8>,
    pub server_host: Vec<u8>,
}

/// A field and the comma after it, then the rest of the line.
pub open spec fn field_then(f: Seq<u8>, rest: Seq<u8>) -> Seq<u8> {
    f + seq![44u8] + rest
}

/// The stored line of a test outcome without its line break: the timestamp,
/// then either the columns of a finished test (client ISP and server
/// description quoted) or ten commas and the quoted error.
pub open spec fn result_body(ts: Seq<u8>, outcome: Result<ResultFields, Vec<u8>>) -> Seq<u8> {
    match outcome {
        Ok(f) => field_then(ts, field_then(f.latency_idle@, field_then(f.latency_download@,
            field_then(f.latency_upload@, field_then(f.download@, field_then(f.upload@,
                f.client_ip@ + seq![44u8, 34u8] + f.client_isp@ + seq![34u8, 44u8, 34u8]
                    + f.server_descr@ + seq![34u8, 44u8] + f.server_host@ + seq![44u8])))))),
        Err(e) => field_then(ts, field_then(Seq::empty(), field_then(Seq::empty(),
            field_then(Seq::empty(), field_then(Seq::empty(), field_then(Seq::empty(),
                seq![44u8, 44u8, 44u8, 44u8, 34u8] + e@ + seq![34u8])))))),
    }
}

/// The stored line of a test outcome.
pub open spec fn result_line_spec(ts: Seq<u8>, outcome: Result<ResultFields, Vec<u8>>) -> Seq<u8> {
    result_body(ts, outcome).push(10u8)
}

fn field_then_exec(f: &[u8], rest: &[u8]) -> (r: Vec<u8>)
    ensures
        r@ == field_then(f@, rest@),
{
    let mut out = to_vec(f);
    out.push(44);
    push_bytes(&mut out, rest);
    out
}

/// The line to append to the results file for a test outcome at instant
/// `secs`.
#[verifier::spinoff_prover]
pub fn result_line(secs: u64, outcome: &Result<ResultFields, Vec<u8>>) -> (r: Vec<u8>)
    requires
        secs < clock_limit(),
    ensures
        r@ == result_line_spec(clock_text(secs as int), *outcome),
{
    let mut ts: Vec<u8> = Vec::new();
    clock_bytes(secs, &mut ts);
    assert(ts@ =~= clock_text(secs as int));
    let mut body = match outcome {
        Ok(f) => {
            let mut tail = to_vec(f.client_ip.as_slice());
            tail.push(44);
            tail.push(34);
            push_bytes(&mut tail, f.client_isp.as_slice());
            tail.push(34);
            tail.push(44);
            tail.push(34);
            push_bytes(&mut tail, f.server_descr.as_slice());
            tail.push(34);
            tail.push(44);
            push_bytes(&mut tail, f.server_host.as_slice());
            tail.push(44);
            assert(tail@ =~= f.client_ip@ + seq![44u8, 34u8] + f.client_isp@ + seq![34u8, 44u8, 34u8]
                + f.server_descr@ + seq![34u8, 44u8] + f.server_host@ + seq![44u8]);
            let r5 = field_then_exec(f.upload.as_slice(), tail.as_slice());
            let r4 = field_then_exec(f.download.as_slice(), r5.as_slice());
            let r3 = field_then_exec(f.latency_upload.as_slice(), r4.as_slice());
            let r2 = field_then_exec(f.latency_download.as_slice(), r3.as_slice());
            let r1 = field_then_exec(f.latency_idle.as_slice(), r2.as_slice());
            field_then_exec(ts.as_slice(), r1.as_slice())
        },
        Err(e) => {
            let mut tail: Vec<u8> = Vec::new();
            tail.push(44);
            tail.push(44);
            tail.push(44);
            tail.push(44);
            tail.push(34);
            push_bytes(&mut tail, e.as_slice());
            tail.push(34);
            assert(tail@ =~= seq![44u8, 44u8, 44u8, 44u8, 34u8] + e@ + seq![34u8]);
            let empty: Vec<u8> = Vec::new();
            let r5 = field_then_exec(empty.as_slice(), tail.as_slice());
            let r4 = field_then_exec(empty.as_slice(), r5.as_slice());
            let r3 = field_then_exec(empty.as_slice(), r4.as_slice());
            let r2 = field_then_exec(empty.as_slice(), r3.as_slice());
            let r1 = field_then_exec(empty.as_slice(), r2.as_slice());
            assert(empty@ =~= Seq::<u8>::empty());
            field_then_exec(ts.as_slice(), r1.as_slice())
        },
    };
    body.push(10);
    body
}


/// An outcome that one line can hold and the chart can read back: no
/// column holds a line break, and the five columns the chart reads hold no
/// comma.
pub open spec fn storable(outcome: Result<ResultFields, Vec<u8>>) -> bool {
    match outcome {
        Ok(f) => {
            &&& lacks(f.latency_idle@, 44) && lacks(f.latency_idle@, 10)
            &&& lacks(f.latency_download@, 44) && lacks(f.latency_download@, 10)
            &&& lacks(f.latency_upload@, 44) && lacks(f.latency_upload@, 10)
            &&& lacks(f.download@, 44) && lacks(f.download@, 10)
            &&& lacks(f.upload@, 44) && lacks(f.upload@, 10)
            &&& lacks(f.client_ip@, 10) && lacks(f.client_isp@, 10)
            &&& lacks(f.server_descr@, 10) && lacks(f.server_host@, 10)
        },
        Err(e) => lacks(e@, 10),
    }
}

/// The fields the chart reads from a stored outcome: the timestamp, then
/// the latencies and speeds of a finished test, or five empty fields for a
/// failed one.
pub open spec fn charted_fields(ts: Seq<u8>, outcome: Result<ResultFields, Vec<u8>>) -> Seq<Seq<u8>> {
    match outcome {
        Ok(f) => seq![ts, f.latency_idle@, f.latency_download@, f.latency_upload@, f.download@, f.upload@],
        Err(_) => seq![ts, Seq::empty(), Seq::empty(), Seq::empty(), Seq::empty(), Seq::empty()],
    }
}

proof fn lemma_lines_append(data: Seq<u8>, body: Seq<u8>)
    requires
        data.len() > 0,
        data.last() == 10u8,
        lacks(body, 10),
    ensures
        text_lines(data).len() >= 1,
        text_lines(data + body.push(10u8)) == text_lines(data).push(strip_cr(body)),
{
    let d = data.drop_last();
    lemma_split_on_nonempty(d, 10);
    assert(data =~= d + seq![10u8] + Seq::<u8>::empty());
    lemma_split_on_concat(d, Seq::<u8>::empty(), 10);
    assert(split_on(Seq::<u8>::empty(), 10) =~= seq![Seq::<u8>::empty()]);
    assert(data + body.push(10u8) =~= d + seq![10u8] + body.push(10u8));
    lemma_split_on_concat(d, body.push(10u8), 10);
    lemma_split_on_none(body, 10);
    assert(body.push(10u8).drop_last() =~= body);
    assert(split_on(body.push(10u8), 10) =~= seq![body, Seq::<u8>::empty()]);
    let pd = split_on(d, 10);
    assert(split_on(data, 10) =~= pd + seq![Seq::<u8>::empty()]);
    assert(split_on(data + body.push(10u8), 10) =~= pd + seq![body, Seq::<u8>::empty()]);
    assert(text_lines(data) =~= Seq::new(pd.len(), |i: int| strip_cr(pd[i])));
    assert(text_lines(data + body.push(10u8)) =~= Seq::new(pd.len(), |i: int| strip_cr(pd[i])).push(strip_cr(body)));
}

/// Appending a line to a results file that ends with a line break adds
/// the row of that line, if it makes one, after the rows already there.
pub proof fn lemma_append_row(data: Seq<u8>, body: Seq<u8>)
    requires
        data.len() > 0,
        data.last() == 10u8,
        lacks(body, 10),
    ensures
        chart_rows_spec(data + body.push(10u8)) == chart_rows_spec(data) + row_of_line(strip_cr(body)),
{
    lemma_lines_append(data, body);
    let ls = text_lines(data);
    let x = strip_cr(body);
    assert(ls.push(x).drop_first() =~= ls.drop_first().push(x));
    assert(ls.drop_first().push(x).drop_last() =~= ls.drop_first());
}

/// The row the chart reads from the stored line of an outcome.
#[verifier::spinoff_prover]
proof fn lemma_result_row(secs: int, outcome: Result<ResultFields, Vec<u8>>)
    requires
        0 <= secs < readable_limit(),
        storable(outcome),
    ensures
        lacks(result_body(clock_text(secs), outcome), 10),
        strip_cr(result_body(clock_text(secs), outcome)) == result_body(clock_text(secs), outcome),
        row_of_line(result_body(clock_text(secs), outcome)) == seq![(low32(secs), charted_fields(clock_text(secs), outcome))],
{
    let ts = clock_text(secs);
    lemma_clock_text_bytes(secs);
    lemma_timestr_roundtrip(secs);
    assert(lacks(ts, 44) && lacks(ts, 10)) by {
        assert forall|i: int| 0 <= i < ts.len() implies #[trigger] ts[i] != 44 && ts[i] != 10 by {
            let c = ts[i];
            assert(is_digit(c) || c == 45 || c == 46 || c == 58);
        }
    }
    let e0 = Seq::<u8>::empty();
    let (p1, p2, p3, p4, p5, t) = match outcome {
        Ok(f) => (f.latency_idle@, f.latency_download@, f.latency_upload@, f.download@, f.upload@,
            f.client_ip@ + seq![44u8, 34u8] + f.client_isp@ + seq![34u8, 44u8, 34u8]
                + f.server_descr@ + seq![34u8, 44u8] + f.server_host@ + seq![44u8]),
        Err(e) => (e0, e0, e0, e0, e0, seq![44u8, 44u8, 44u8, 44u8, 34u8] + e@ + seq![34u8]),
    };
    assert(lacks(e0, 44) && lacks(e0, 10));
    assert(lacks(p1, 44) && lacks(p1, 10) && lacks(p2, 44) && lacks(p2, 10) && lacks(p3, 44) && lacks(p3, 10)
        && lacks(p4, 44) && lacks(p4, 10) && lacks(p5, 44) && lacks(p5, 10));
    let sep = seq![44u8];
    assert(lacks(sep, 10));
    match outcome {
        Ok(f) => {
            let q1 = seq![44u8, 34u8];
            let q2 = seq![34u8, 44u8, 34u8];
            let q3 = seq![34u8, 44u8];
            assert(lacks(q1, 10) && lacks(q2, 10) && lacks(q3, 10));
            lemma_lacks_concat(f.client_ip@, q1, 10);
            lemma_lacks_concat(f.client_ip@ + q1, f.client_isp@, 10);
            lemma_lacks_concat(f.client_ip@ + q1 + f.client_isp@, q2, 10);
            lemma_lacks_concat(f.client_ip@ + q1 + f.client_isp@ + q2, f.server_descr@, 10);
            lemma_lacks_concat(f.client_ip@ + q1 + f.client_isp@ + q2 + f.server_descr@, q3, 10);
            lemma_lacks_concat(f.client_ip@ + q1 + f.client_isp@ + q2 + f.server_descr@ + q3, f.server_host@, 10);
            lemma_lacks_concat(f.client_ip@ + q1 + f.client_isp@ + q2 + f.server_descr@ + q3 + f.server_host@, sep, 10);
            assert(t.last() == 44u8);
        },
        Err(e) => {
            let q = seq![44u8, 44u8, 44u8, 44u8, 34u8];
            assert(lacks(q, 10));
            lemma_lacks_concat(q, e@, 10);
            lemma_lacks_concat(q + e@, seq![34u8], 10);
            assert(t.last() == 34u8);
        },
    }
    assert(lacks(t, 10));
    let r5 = field_then(p5, t);
    let r4 = field_then(p4, r5);
    let r3 = field_then(p3, r4);
    let r2 = field_then(p2, r3);
    let r1 = field_then(p1, r2);
    let body = field_then(ts, r1);
    assert(body == result_body(ts, outcome));
    lemma_lacks_concat(p5, sep, 10);
    lemma_lacks_concat(p5 + sep, t, 10);
    lemma_lacks_concat(p4, sep, 10);
    lemma_lacks_concat(p4 + sep, r5, 10);
    lemma_lacks_concat(p3, sep, 10);
    lemma_lacks_concat(p3 + sep, r4, 10);
    lemma_lacks_concat(p2, sep, 10);
    lemma_lacks_concat(p2 + sep, r3, 10);
    lemma_lacks_concat(p1, sep, 10);
    lemma_lacks_concat(p1 + sep, r2, 10);
    lemma_lacks_concat(ts, sep, 10);
    lemma_lacks_concat(ts + sep, r1, 10);
    assert(body.last() == t.last());
    lemma_split_on_none(ts, 44);
    lemma_split_on_none(p1, 44);
    lemma_split_on_none(p2, 44);
    lemma_split_on_none(p3, 44);
    lemma_split_on_none(p4, 44);
    lemma_split_on_none(p5, 44);
    lemma_split_on_concat(p5, t, 44);
    lemma_split_on_concat(p4, r5, 44);
    lemma_split_on_concat(p3, r4, 44);
    lemma_split_on_concat(p2, r3, 44);
    lemma_split_on_concat(p1, r2, 44);
    lemma_split_on_concat(ts, r1, 44);
    lemma_split_on_nonempty(t, 44);
    let st = split_on(t, 44);
    assert(split_on(body, 44) =~= seq![ts, p1, p2, p3, p4, p5] + st);
    assert(line_fields(body) =~= seq![ts, p1, p2, p3, p4, p5]);
    assert(seq![ts, p1, p2, p3, p4, p5] =~= charted_fields(ts, outcome));
}

/// A test outcome saved at instant `secs` to a results file that ends with
/// a line break shows in the chart data as one more row, after the rows
/// already there: the instant (cut to 32 bits) with the timestamp and the
/// latencies and speeds that were saved, or empty ones for a failed test.
pub proof fn lemma_saved_result_is_charted(data: Seq<u8>, secs: int, outcome: Result<ResultFields, Vec<u8>>)
    requires
        data.len() > 0,
        data.last() == 10u8,
        0 <= secs < readable_limit(),
        storable(outcome),
    ensures
        chart_rows_spec(data + result_line_spec(clock_text(secs), outcome))
            == chart_rows_spec(data).push((low32(secs), charted_fields(clock_text(secs), outcome))),
{
    lemma_result_row(secs, outcome);
    let body = result_body(clock_text(secs), outcome);
    lemma_append_row(data, body);
}

/// A results file holding just the column names ends with a line break and
/// has no rows.
pub proof fn lemma_header_has_no_rows()
    ensures
        CSV_COLS.spec_bytes().len() > 0,
        CSV_COLS.spec_bytes().last() == 10u8,
        chart_rows_spec(CSV_COLS.spec_bytes()) == Seq::<(u32, Seq<Seq<u8>>)>::empty(),
{
    reveal_strlit("Timestamp,LatencyIdle(ms),LatencyDownload(ms),LatencyUpload(ms),Download(Mbps),Upload(Mbps),ClientPublicIP,ClientISP,ServerDescr,ServerHost,Error\n");
    assert(is_ascii(CSV_COLS));
    is_ascii_spec_bytes(CSV_COLS);
    let h = CSV_COLS.spec_bytes();
    let body = h.drop_last();
    assert(lacks(body, 10));
    assert(h =~= body + seq![10u8] + Seq::<u8>::empty());
    lemma_split_on_none(body, 10);
    lemma_split_on_concat(body, Seq::<u8>::empty(), 10);
    assert(split_on(Seq::<u8>::empty(), 10) =~= seq![Seq::<u8>::empty()]);
    assert(split_on(h, 10) =~= seq![body, Seq::<u8>::empty()]);
    assert(text_lines(h).len() == 1);
    assert(text_lines(h).drop_first() =~= Seq::<Seq<u8>>::empty());
}

} // verus!
