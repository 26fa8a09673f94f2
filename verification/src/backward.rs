//! Reading the lines of a file from its end, one block at a time: which
//! block to read next, and which lines each block completes.

use vstd::prelude::*;
use crate::bytes::{first_occurrence, lemma_first_occurrence, memmem, occurs_at, to_vec};
use crate::text::{lemma_bytes_deep_view, lemma_split_on_concat, lemma_split_on_none, lemma_split_on_nonempty, split_bytes, split_on};

verus! {

/// Size of the blocks read from the file.
pub const BLOCK_LEN: usize = 4096;

/// Where the reading stands between two blocks.
pub struct BackwardLines {
    buf: Vec<u8>,
    off: usize,
    rlen: usize,
    extra: usize,
}

/// `BackwardLines` as plain values: the buffer (two blocks long), the file
/// offset and length of the next block, and the length of the part of a
/// line, begun in the next block, that waits at the start of the second
/// half of the buffer.
pub ghost struct BackwardView {
    pub buf: Seq<u8>,
    pub off: int,
    pub rlen: int,
    pub extra: int,
}

impl View for BackwardLines {
    type V = BackwardView;

    closed spec fn view(&self) -> BackwardView {
        BackwardView { buf: self.buf@, off: self.off as int, rlen: self.rlen as int, extra: self.extra as int }
    }
}

/// The state before the first block of a file of `size` bytes: the last
/// block is read first, the part past the last multiple of the block size,
/// or a whole block where the size is such a multiple.
pub open spec fn start_view(size: int) -> BackwardView {
    let off = size - size % (BLOCK_LEN as int);
    BackwardView {
        buf: Seq::new(2 * BLOCK_LEN as nat, |j: int| 0u8),
        off: if off == size { off - BLOCK_LEN } else { off },
        rlen: if off == size { BLOCK_LEN as int } else { size - off },
        extra: 0,
    }
}

/// The buffer once `block` is read into its start.
pub open spec fn with_block(v: BackwardView, block: Seq<u8>) -> Seq<u8> {
    block + v.buf.subrange(block.len() as int, v.buf.len() as int)
}

/// Where the first line break of `block` is, or its length if it has none.
pub open spec fn block_start(block: Seq<u8>) -> int {
    match first_occurrence(block, seq![10u8]) {
        Some(i) => i,
        None => block.len() as int,
    }
}

/// Taking the block would cut the buffer from past its end: the block has
/// no line break and no part of a line waits after it.
pub open spec fn block_fails(v: BackwardView, block: Seq<u8>) -> bool {
    block_start(block) + 1 > v.rlen + v.extra
}

/// The lines that `block` completes, last first: those after its first line
/// break, up to the end of the part of a line that waits after it.
pub open spec fn block_lines(v: BackwardView, block: Seq<u8>) -> Seq<Seq<u8>> {
    split_on(with_block(v, block).subrange(block_start(block) + 1, v.rlen + v.extra), 10).reverse()
}

/// The line that the block at offset 0 begins with, if it is not empty.
pub open spec fn block_first(v: BackwardView, block: Seq<u8>) -> Option<Seq<u8>> {
    if v.off == 0 && block_start(block) > 0 {
        Some(block.subrange(0, block_start(block)))
    } else {
        None
    }
}

/// The state after `block`: the part before its first line break waits at
/// the start of the second half of the buffer, and the block before it is
/// next.  After the block at offset 0 only the buffer changes.
pub open spec fn after_block(v: BackwardView, block: Seq<u8>) -> BackwardView {
    let nb = with_block(v, block);
    let start = block_start(block);
    if v.off == 0 {
        BackwardView { buf: nb, ..v }
    } else {
        BackwardView {
            buf: Seq::new(nb.len(), |j: int| if BLOCK_LEN <= j < BLOCK_LEN + start { nb[j - BLOCK_LEN] } else { nb[j] }),
            off: v.off - BLOCK_LEN,
            rlen: BLOCK_LEN as int,
            extra: start,
        }
    }
}

/// What one block yields.
pub struct BlockLines {
    /// The lines the block completes, last first.
    pub lines: Vec<Vec<u8>>,
    /// The first line of the file, when this block was its first and the
    /// line is not empty.
    pub first: Option<Vec<u8>>,
    /// This block was the first of the file.
    pub done: bool,
}

impl BackwardLines {
    pub closed spec fn wf(&self) -> bool {
        &&& self.buf@.len() == 2 * BLOCK_LEN
        &&& 0 < self.rlen <= BLOCK_LEN
        &&& self.extra <= BLOCK_LEN
        &&& self.off % BLOCK_LEN == 0
    }

    /// Starts reading a file of `size` bytes; an empty file has no lines to
    /// read.
    pub fn new(size: usize) -> (r: Option<BackwardLines>)
        ensures
            r is None <==> size == 0,
            r matches Some(b) ==> b.wf() && b@ == start_view(size as int),
    {
        if size == 0 {
            return None;
        }
        let mut buf: Vec<u8> = Vec::new();
        let mut i: usize = 0;
        while i < 2 * BLOCK_LEN
            invariant
                i <= 2 * BLOCK_LEN,
                buf@ == Seq::new(i as nat, |j: int| 0u8),
            decreases 2 * BLOCK_LEN - i,
        {
            buf.push(0);
            i = i + 1;
            assert(buf@ =~= Seq::new(i as nat, |j: int| 0u8));
        }
        let mut off = size - size % BLOCK_LEN;
        let mut rlen = size - off;
        if off == size {
            off = off - BLOCK_LEN;
            rlen = BLOCK_LEN;
        }
        let r = BackwardLines { buf, off, rlen, extra: 0 };
        assert(r@.buf =~= start_view(size as int).buf);
        Some(r)
    }

    /// The file offset and the length of the next block to read.
    pub fn next_read(&self) -> (r: (usize, usize))
        ensures
            r.0 == self@.off,
            r.1 == self@.rlen,
    {
        (self.off, self.rlen)
    }

    /// Whether taking `block` would cut the buffer from past its end (see
    /// `block_fails`).
    pub fn block_fails(&self, block: &[u8]) -> (r: bool)
        requires
            self.wf(),
        ensures
            r == block_fails(self@, block@),
    {
        let nl: Vec<u8> = vec![10u8];
        let start = match memmem(block, nl.as_slice()) {
            Some(i) => i,
            None => block.len(),
        };
        assert(nl@ =~= seq![10u8]);
        start >= self.rlen + self.extra
    }

    /// Takes the next block, as read from the file: its bytes go to the
    /// start of the buffer, the lines it completes come out last first, and
    /// the reading moves on to the block before it.
    #[verifier::spinoff_prover]
    pub fn take_block(&mut self, block: &[u8]) -> (r: BlockLines)
        requires
            old(self).wf(),
            block@.len() == old(self)@.rlen,
            !block_fails(old(self)@, block@),
        ensures
            final(self).wf(),
            final(self)@ == after_block(old(self)@, block@),
            r.lines.deep_view() == block_lines(old(self)@, block@),
            r.done == (old(self)@.off == 0),
            r.first matches Some(f) ==> block_first(old(self)@, block@) == Some(f@),
            r.first is None ==> block_first(old(self)@, block@) is None,
    {
        let ghost v = self@;
        let n = block.len();
        let mut i: usize = 0;
        while i < n
            invariant
                n == block@.len(),
                n <= BLOCK_LEN,
                i <= n,
                v.buf.len() == 2 * BLOCK_LEN,
                self.buf@.len() == 2 * BLOCK_LEN,
                self.buf@ == block@.take(i as int) + v.buf.subrange(i as int, v.buf.len() as int),
                self.off == v.off,
                self.rlen == v.rlen,
                self.extra == v.extra,
            decreases n - i,
        {
            self.buf.set(i, block[i]);
            i = i + 1;
            assert(self.buf@ =~= block@.take(i as int) + v.buf.subrange(i as int, v.buf.len() as int));
        }
        assert(block@.take(n as int) =~= block@);
        assert(self.buf@ == with_block(v, block@));
        let nl: Vec<u8> = vec![10u8];
        assert(nl@ =~= seq![10u8]);
        let start = match memmem(block, nl.as_slice()) {
            Some(k) => k,
            None => n,
        };
        assert(start == block_start(block@));
        let end = self.rlen + self.extra;
        let region = &self.buf.as_slice()[start + 1..end];
        assert(region@ =~= with_block(v, block@).subrange(start + 1, v.rlen + v.extra));
        let pieces = split_bytes(region, 10);
        let ghost pv = pieces.deep_view();
        let mut lines: Vec<Vec<u8>> = Vec::new();
        let mut k: usize = pieces.len();
        while k > 0
            invariant
                k <= pieces@.len(),
                pv == pieces.deep_view(),
                lines@.len() == pieces@.len() - k,
                forall|j: int| 0 <= j < lines@.len() ==> #[trigger] lines@[j]@ == pv[pv.len() - 1 - j],
            decreases k,
        {
            k = k - 1;
            proof {
                lemma_bytes_deep_view(pieces@[k as int]);
            }
            lines.push(to_vec(pieces[k].as_slice()));
        }
        assert forall|q: int| 0 <= q < lines@.len() implies #[trigger] lines.deep_view()[q] == pv.reverse()[q] by {
            lemma_bytes_deep_view(lines@[q]);
        }
        assert(lines.deep_view() =~= block_lines(v, block@));
        if self.off == 0 {
            let first = if start > 0 {
                let f = to_vec(&block[0..start]);
                Some(f)
            } else {
                None
            };
            assert(self@ =~= after_block(v, block@));
            return BlockLines { lines, first, done: true };
        }
        let ghost nb = self.buf@;
        let mut j: usize = 0;
        while j < start
            invariant
                start <= n <= BLOCK_LEN,
                j <= start,
                nb.len() == 2 * BLOCK_LEN,
                self.buf@.len() == 2 * BLOCK_LEN,
                self.off == v.off,
                v.off % (BLOCK_LEN as int) == 0,
                forall|q: int| 0 <= q < 2 * BLOCK_LEN ==> #[trigger] self.buf@[q] == if BLOCK_LEN <= q < BLOCK_LEN + j { nb[q - BLOCK_LEN] } else { nb[q] },
            decreases start - j,
        {
            let c = self.buf[j];
            self.buf.set(BLOCK_LEN + j, c);
            j = j + 1;
        }
        let off = self.off;
        assert(off >= 4096 && (off - 4096) % 4096 == 0) by (nonlinear_arith)
            requires
                off % 4096 == 0,
                off > 0;
        self.extra = start;
        self.rlen = BLOCK_LEN;
        self.off = self.off - BLOCK_LEN;
        assert(self@.buf =~= after_block(v, block@).buf);
        BlockLines { lines, first: None, done: false }
    }
}

/// Every block of `file` that the reading takes holds a line break: the
/// blocks start at the multiples of the block size and end at the next one
/// or at the end of the file.
pub open spec fn every_block_has_break(file: Seq<u8>) -> bool {
    forall|o: int| 0 <= o < file.len() && o % (BLOCK_LEN as int) == 0 ==>
        first_occurrence(#[trigger] block_of(file, o), seq![10u8]) is Some
}

/// The block of `file` at offset `o`: up to the next multiple of the block
/// size, or to the end of the file.
pub open spec fn block_of(file: Seq<u8>, o: int) -> Seq<u8> {
    file.subrange(o, if o + BLOCK_LEN < file.len() { o + BLOCK_LEN } else { file.len() as int })
}

/// The lines of `file` last first, as reading it from its end reports
/// them: all pieces between line breaks, save an empty first line.
pub open spec fn lines_last_first(file: Seq<u8>) -> Seq<Seq<u8>> {
    let s = split_on(file, 10).reverse();
    if file.len() > 0 && file[0] == 10 { s.drop_last() } else { s }
}

/// What reading `file` from state `v` reports, block by block: the lines
/// of each block, then the first line of the file; `None` where a block
/// would fail.
pub open spec fn run_lines(v: BackwardView, file: Seq<u8>) -> Option<Seq<Seq<u8>>>
    decreases v.off,
{
    let block = file.subrange(v.off, v.off + v.rlen);
    if block_fails(v, block) {
        None
    } else if v.off == 0 {
        Some(block_lines(v, block) + match block_first(v, block) {
            Some(f) => seq![f],
            None => Seq::empty(),
        })
    } else if v.off >= BLOCK_LEN {
        match run_lines(after_block(v, block), file) {
            Some(rest) => Some(block_lines(v, block) + rest),
            None => None,
        }
    } else {
        None
    }
}

proof fn lemma_split_reverse(p: Seq<u8>, r: Seq<u8>)
    requires
        lacks_break(p),
    ensures
        split_on(p + seq![10u8] + r, 10).reverse() == split_on(r, 10).reverse() + seq![p],
{
    lemma_split_on_none(p, 10);
    lemma_split_on_concat(p, r, 10);
    assert((seq![p] + split_on(r, 10)).reverse() =~= split_on(r, 10).reverse() + seq![p]);
}

/// `s` holds no line break.
pub open spec fn lacks_break(s: Seq<u8>) -> bool {
    forall|i: int| 0 <= i < s.len() ==> #[trigger] s[i] != 10
}

proof fn lemma_first_break(b: Seq<u8>)
    requires
        first_occurrence(b, seq![10u8]) is Some,
    ensures
        0 <= block_start(b) < b.len(),
        b[block_start(b)] == 10,
        lacks_break(b.subrange(0, block_start(b))),
{
    lemma_first_occurrence(b, seq![10u8]);
    let k = block_start(b);
    assert(b.subrange(k, k + 1)[0] == b[k]);
    assert forall|i: int| 0 <= i < k implies #[trigger] b.subrange(0, k)[i] != 10 by {
        assert(!occurs_at(b, seq![10u8], i));
        if b[i] == 10 {
            assert(b.subrange(i, i + 1) =~= seq![10u8]);
        }
        assert(b.subrange(0, k)[i] == b[i]);
    }
}

/// The step of the reading: what is still to come from state `v` is the
/// lines, last first, of the file up to the end of the waiting part.
#[verifier::spinoff_prover]
proof fn lemma_run_lines(v: BackwardView, file: Seq<u8>)
    requires
        every_block_has_break(file),
        v.buf.len() == 2 * BLOCK_LEN,
        0 <= v.off,
        v.off % (BLOCK_LEN as int) == 0,
        0 < v.rlen <= BLOCK_LEN,
        0 <= v.extra <= BLOCK_LEN,
        v.extra > 0 ==> v.rlen == BLOCK_LEN,
        v.off + v.rlen + v.extra <= file.len(),
        v.rlen == BLOCK_LEN || v.off + v.rlen == file.len(),
        v.buf.subrange(BLOCK_LEN as int, BLOCK_LEN + v.extra) == file.subrange(v.off + v.rlen, v.off + v.rlen + v.extra),
    ensures
        run_lines(v, file) == Some(lines_last_first(file.subrange(0, v.off + v.rlen + v.extra))),
    decreases v.off,
{
    let block = file.subrange(v.off, v.off + v.rlen);
    assert(block == block_of(file, v.off));
    lemma_first_break(block);
    let start = block_start(block);
    assert(!block_fails(v, block));
    let nb = with_block(v, block);
    let region = nb.subrange(start + 1, v.rlen + v.extra);
    assert(region =~= file.subrange(v.off + start + 1, v.off + v.rlen + v.extra)) by {
        assert forall|i: int| 0 <= i < region.len() implies region[i] == file[v.off + start + 1 + i] by {
            let q = start + 1 + i;
            if q < v.rlen {
                assert(nb[q] == block[q]);
            } else {
                assert(nb[q] == v.buf[q]);
                assert(v.buf.subrange(BLOCK_LEN as int, BLOCK_LEN + v.extra)[q - BLOCK_LEN] == v.buf[q]);
            }
        }
    }
    let t = file.subrange(0, v.off + v.rlen + v.extra);
    let p = file.subrange(0, v.off + start);
    assert(t =~= p + seq![10u8] + region);
    if v.off == 0 {
        assert(p =~= block.subrange(0, start));
        lemma_split_reverse(p, region);
        if start > 0 {
            assert(t[0] == p[0]);
            assert(t[0] == block[0]);
        } else {
            assert(t[0] == 10);
            assert((split_on(region, 10).reverse() + seq![p]).drop_last() =~= split_on(region, 10).reverse());
        }
    } else {
        let off = v.off;
        assert(off >= 4096 && (off - 4096) % 4096 == 0) by (nonlinear_arith)
            requires
                off % 4096 == 0,
                off > 0;
        let w = after_block(v, block);
        assert(w.buf.subrange(BLOCK_LEN as int, BLOCK_LEN + w.extra) =~= file.subrange(w.off + w.rlen, w.off + w.rlen + w.extra)) by {
            let lhs = w.buf.subrange(BLOCK_LEN as int, BLOCK_LEN + w.extra);
            let rhs = file.subrange(w.off + w.rlen, w.off + w.rlen + w.extra);
            assert forall|i: int| 0 <= i < w.extra implies #[trigger] lhs[i] == rhs[i] by {
                assert(nb[i] == block[i]);
            }
        }
        lemma_run_lines(w, file);
        assert(w.off + w.rlen + w.extra == v.off + start);
        let lp = lines_last_first(p);
        lemma_split_on_nonempty(p, 10);
        let sp = split_on(p, 10).reverse();
        let sr = split_on(region, 10).reverse();
        lemma_split_on_concat(p, region, 10);
        assert(split_on(t, 10).reverse() =~= sr + sp) by {
            assert((split_on(p, 10) + split_on(region, 10)).reverse() =~= sr + sp);
        }
        assert(t[0] == p[0]);
        if p[0] == 10 {
            assert((sr + sp).drop_last() =~= sr + sp.drop_last());
        }
        assert(lines_last_first(t) =~= sr + lp);
    }
}

/// Reading a file from its end, block by block, reports its lines last
/// first, all of them but an empty first line, as long as every block
/// holds a line break.
pub proof fn lemma_lines_backwards(file: Seq<u8>)
    requires
        file.len() > 0,
        every_block_has_break(file),
    ensures
        run_lines(start_view(file.len() as int), file) == Some(lines_last_first(file)),
{
    let size = file.len() as int;
    let v = start_view(size);
    let off0 = size - size % 4096;
    assert(off0 % 4096 == 0 && off0 <= size && size - off0 < 4096) by (nonlinear_arith)
        requires off0 == size - size % 4096, size > 0;
    if off0 == size {
        assert(off0 >= 4096 && (off0 - 4096) % 4096 == 0) by (nonlinear_arith)
            requires off0 % 4096 == 0, off0 > 0;
    }
    assert(v.buf.subrange(BLOCK_LEN as int, BLOCK_LEN as int) =~= file.subrange(size, size));
    lemma_run_lines(v, file);
    assert(file.subrange(0, size) =~= file);
}

} // verus!
