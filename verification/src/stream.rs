//! Stream mode: ETB commits for append-only logs.
//!
//! C0DATA records are start-delimited, so a crashed append leaves a truncated
//! final record indistinguishable from a complete one. In stream mode every
//! appended block (one or more records, or an SOH header) is terminated by an
//! ETB commit marker. A block is complete iff terminated by ETB.

use vstd::prelude::*;

use crate::builder::{all_names, group_bytes, header_bytes, is_name, record_bytes, strs_bytes, Builder};
use vstd::string::StringSliceAdditionalSpecFns;

use crate::sink::{Sink, SinkCall};
use crate::scan::{clamp, lemma_data_run, lemma_nested_end, nested_end, scan_data, skip_nested};
use crate::table::{table_at, Table};
use crate::tokenizer::data_run_end;
use crate::{DLE, ETB, STX};

verus! {

/// The commit markers found from `p` on, as (ETB offset, end of payload).
/// DLE-escaped bytes are data, and an ETB inside an STX/ETX scope is record
/// content, not a commit.
pub open spec fn commits_from(s: Seq<u8>, p: int) -> Seq<(int, int)>
    decreases s.len() - p,
{
    if p < 0 || p >= s.len() {
        Seq::empty()
    } else if s[p] == DLE {
        commits_from(s, clamp(p + 2, s.len() as int))
    } else if s[p] == STX {
        let q = nested_end(s, p + 1, 1, s.len() as int);
        if q <= p || q > s.len() {
            Seq::empty()
        } else {
            commits_from(s, q)
        }
    } else if s[p] == ETB {
        let e = data_run_end(s, p + 1);
        if e <= p || e > s.len() {
            Seq::empty()
        } else {
            seq![(p, e)] + commits_from(s, e)
        }
    } else {
        commits_from(s, p + 1)
    }
}

/// The commit markers of a whole buffer.
pub open spec fn commits_of(s: Seq<u8>) -> Seq<(int, int)> {
    commits_from(s, 0)
}

/// Offset just past the last commit marker and its payload (0 when there is
/// no commit).
pub open spec fn committed_end_of(s: Seq<u8>) -> int {
    let c = commits_of(s);
    if c.len() == 0 {
        0
    } else {
        c.last().1
    }
}

/// The committed blocks: the bytes between one commit and the next ETB
/// (marker and payload excluded).
pub open spec fn blocks_of(s: Seq<u8>) -> Seq<Seq<u8>> {
    let c = commits_of(s);
    Seq::new(
        c.len(),
        |i: int|
            s.subrange(
                if i == 0 {
                    0
                } else {
                    c[i - 1].1
                },
                c[i].0,
            ),
    )
}

/// Commits are ordered and lie in the buffer from `lo` on.
pub open spec fn commits_ok(s: Seq<u8>, c: Seq<(int, int)>, lo: int) -> bool {
    &&& forall|i: int| 0 <= i < c.len() ==> lo <= (#[trigger] c[i]).0 < c[i].1 <= s.len()
    &&& forall|i: int, j: int| 0 <= i < j < c.len() ==> (#[trigger] c[i]).1 <= (#[trigger] c[j]).0
}

pub proof fn lemma_commits_from(s: Seq<u8>, p: int)
    requires
        0 <= p <= s.len(),
    ensures
        commits_ok(s, commits_from(s, p), p),
    decreases s.len() - p,
{
    if p < s.len() {
        if s[p] == DLE {
            lemma_commits_from(s, clamp(p + 2, s.len() as int));
        } else if s[p] == STX {
            lemma_nested_end(s, p + 1, 1, s.len() as int);
            let q = nested_end(s, p + 1, 1, s.len() as int);
            if q > p && q <= s.len() {
                lemma_commits_from(s, q);
            }
        } else if s[p] == ETB {
            lemma_data_run(s, p + 1);
            let e = data_run_end(s, p + 1);
            if e > p && e <= s.len() {
                lemma_commits_from(s, e);
                let rest = commits_from(s, e);
                let c = seq![(p, e)] + rest;
                assert forall|i: int| 0 <= i < c.len() implies p <= (#[trigger] c[i]).0 < c[i].1
                    <= s.len() by {
                    if i > 0 {
                        assert(c[i] == rest[i - 1]);
                    }
                }
                assert forall|i: int, j: int| 0 <= i < j < c.len() implies (#[trigger] c[i]).1
                    <= (#[trigger] c[j]).0 by {
                    assert(c[j] == rest[j - 1]);
                    if i > 0 {
                        assert(c[i] == rest[i - 1]);
                    }
                }
            }
        } else {
            lemma_commits_from(s, p + 1);
        }
    }
}

proof fn lemma_commit_marks(s: Seq<u8>, p: int)
    requires
        0 <= p <= s.len(),
    ensures
        forall|i: int|
            0 <= i < commits_from(s, p).len() ==> s[(#[trigger] commits_from(s, p)[i]).0] == ETB
                && commits_from(s, p)[i].1 == data_run_end(s, commits_from(s, p)[i].0 + 1),
    decreases s.len() - p,
{
    lemma_commits_from(s, p);
    if p < s.len() {
        if s[p] == DLE {
            lemma_commit_marks(s, clamp(p + 2, s.len() as int));
            assert(commits_from(s, p) == commits_from(s, clamp(p + 2, s.len() as int)));
        } else if s[p] == STX {
            lemma_nested_end(s, p + 1, 1, s.len() as int);
            let q = nested_end(s, p + 1, 1, s.len() as int);
            if q > p && q <= s.len() {
                lemma_commit_marks(s, q);
                assert(commits_from(s, p) == commits_from(s, q));
            }
        } else if s[p] == ETB {
            lemma_data_run(s, p + 1);
            let e = data_run_end(s, p + 1);
            if e > p && e <= s.len() {
                lemma_commit_marks(s, e);
                let rest = commits_from(s, e);
                let c = seq![(p, e)] + rest;
                assert forall|i: int| 0 <= i < c.len() implies s[(#[trigger] c[i]).0] == ETB && c[i].1
                    == data_run_end(s, c[i].0 + 1) by {
                    if i > 0 {
                        assert(c[i] == rest[i - 1]);
                    }
                }
                assert(commits_from(s, p) == c);
            }
        } else {
            lemma_commit_marks(s, p + 1);
            assert(commits_from(s, p) == commits_from(s, p + 1));
        }
    }
}

/// The commit marker of block `i`: its ETB and the payload after it.
pub open spec fn marker_of(s: Seq<u8>, i: int) -> Seq<u8> {
    s.subrange(commits_of(s)[i].0, commits_of(s)[i].1)
}

/// The first `n` blocks, each followed by its marker.
pub open spec fn blocks_with_markers(s: Seq<u8>, n: nat) -> Seq<u8>
    decreases n,
{
    if n == 0 {
        Seq::empty()
    } else {
        blocks_with_markers(s, (n - 1) as nat) + blocks_of(s)[n - 1] + marker_of(s, n - 1)
    }
}

proof fn lemma_blocks_with_markers(s: Seq<u8>, n: nat)
    requires
        0 < n <= commits_of(s).len(),
        commits_ok(s, commits_of(s), 0),
    ensures
        blocks_with_markers(s, n) == s.subrange(0, commits_of(s)[n - 1].1),
    decreases n,
{
    let c = commits_of(s);
    let lo = if n == 1 {
        0
    } else {
        c[n - 2].1
    };
    assert(0 <= c[n - 1].0 < c[n - 1].1 <= s.len());
    if n > 1 {
        lemma_blocks_with_markers(s, (n - 1) as nat);
        assert(c[n - 2].1 <= c[n - 1].0);
        assert(0 <= c[n - 2].0 < c[n - 2].1);
    } else {
        assert(blocks_with_markers(s, 0) == Seq::<u8>::empty());
    }
    assert(blocks_of(s)[n - 1] == s.subrange(lo, c[n - 1].0));
    assert(blocks_with_markers(s, n) == blocks_with_markers(s, (n - 1) as nat) + s.subrange(
        lo,
        c[n - 1].0,
    ) + s.subrange(c[n - 1].0, c[n - 1].1));
    assert(blocks_with_markers(s, n) =~= s.subrange(0, c[n - 1].1));
}

/// Where block `i` begins: after the previous marker, or at the start.
pub open spec fn block_start(s: Seq<u8>, i: int) -> int {
    if i == 0 {
        0
    } else {
        commits_of(s)[i - 1].1
    }
}

/// The committed region is the blocks, each followed by its marker: an ETB
/// then payload bytes, none of them a control code. No block holds a
/// structural ETB: no commit marker starts inside a block.
pub proof fn blocks_make_committed(s: Seq<u8>)
    ensures
        forall|i: int, j: int|
            0 <= i < blocks_of(s).len() && 0 <= j < commits_of(s).len() ==> !(block_start(s, i)
                <= #[trigger] commits_of(s)[j].0 < #[trigger] commits_of(s)[i].0),
        blocks_with_markers(s, blocks_of(s).len()) == s.subrange(0, committed_end_of(s)),
        forall|i: int|
            0 <= i < blocks_of(s).len() ==> (#[trigger] marker_of(s, i)).len() > 0 && marker_of(s, i)[0]
                == ETB && forall|k: int| 1 <= k < marker_of(s, i).len() ==> marker_of(s, i)[k] >= 0x20,
{
    lemma_commits_from(s, 0);
    lemma_commit_marks(s, 0);
    let c = commits_of(s);
    assert forall|i: int, j: int|
        0 <= i < blocks_of(s).len() && 0 <= j < c.len() implies !(block_start(s, i)
            <= #[trigger] c[j].0 < #[trigger] c[i].0) by {
        if j < i {
            if j < i - 1 {
                assert(c[j].1 <= c[i - 1].0);
            }
            assert(c[j].0 < c[j].1);
            assert(c[j].1 <= c[i - 1].1);
        } else if j > i {
            assert(c[i].1 <= c[j].0);
            assert(c[i].0 < c[i].1);
        }
    }
    if c.len() > 0 {
        lemma_blocks_with_markers(s, c.len());
    } else {
        assert(s.subrange(0, 0) =~= Seq::<u8>::empty());
    }
    assert forall|i: int| 0 <= i < blocks_of(s).len() implies (#[trigger] marker_of(s, i)).len() > 0
        && marker_of(s, i)[0] == ETB && forall|k: int|
        1 <= k < marker_of(s, i).len() ==> marker_of(s, i)[k] >= 0x20 by {
        lemma_data_run(s, c[i].0 + 1);
        assert forall|k: int| 1 <= k < marker_of(s, i).len() implies marker_of(s, i)[k] >= 0x20 by {
            assert(marker_of(s, i)[k] == s[c[i].0 + k]);
        }
    }
}

/// Spans as machine offsets, read as integers.
pub open spec fn commit_spans(v: Seq<(usize, usize)>) -> Seq<(int, int)> {
    Seq::new(v.len(), |i: int| (v[i].0 as int, v[i].1 as int))
}

/// Scans a buffer for ETB commit markers and exposes only the committed
/// region. Accessors return slices of the original buffer.
pub struct StreamReader<'a> {
    buf: &'a [u8],
    commits: Vec<(usize, usize)>,
}

impl<'a> StreamReader<'a> {
    #[verifier::type_invariant]
    spec fn inv(&self) -> bool {
        &&& commit_spans(self.commits@) == commits_of(self.buf@)
        &&& commits_ok(self.buf@, commits_of(self.buf@), 0)
    }

    /// The buffer being read.
    pub closed spec fn source(&self) -> Seq<u8> {
        self.buf@
    }

    pub fn new(buf: &'a [u8]) -> (r: Self)
        ensures
            r.source() == buf@,
    {
        let len = buf.len();
        let ghost s = buf@;
        proof {
            lemma_commits_from(s, 0);
        }
        let mut commits: Vec<(usize, usize)> = Vec::new();
        let mut pos: usize = 0;
        proof {
            assert(commit_spans(commits@) =~= Seq::<(int, int)>::empty());
        }
        while pos < len
            invariant
                s == buf@,
                len == s.len(),
                pos <= len,
                commits_of(s) == commit_spans(commits@) + commits_from(s, pos as int),
            decreases len - pos,
        {
            let byte = buf[pos];
            if byte == DLE {
                if len - pos < 2 {
                    pos = len;
                } else {
                    pos = pos + 2;
                }
            } else if byte == STX {
                pos = skip_nested(buf, pos, len);
            } else if byte == ETB {
                let etb_pos = pos;
                pos = scan_data(buf, pos + 1);
                proof {
                    let c = commit_spans(commits@);
                    let rest = commits_from(s, pos as int);
                    assert(commit_spans(commits@.push((etb_pos, pos))) =~= c.push(
                        (etb_pos as int, pos as int),
                    ));
                    assert(c + (seq![(etb_pos as int, pos as int)] + rest) =~= c.push(
                        (etb_pos as int, pos as int),
                    ) + rest);
                }
                commits.push((etb_pos, pos));
            } else {
                pos = pos + 1;
            }
        }
        proof {
            assert(commit_spans(commits@) + Seq::<(int, int)>::empty() =~= commit_spans(commits@));
        }
        StreamReader { buf, commits }
    }

    /// Offset just past the last commit marker and its payload.
    pub fn committed_end(&self) -> (r: usize)
        ensures
            r == committed_end_of(self.source()),
            r <= self.source().len(),
    {
        proof {
            use_type_invariant(self);
        }
        let n = self.commits.len();
        if n == 0 {
            0
        } else {
            proof {
                assert(commit_spans(self.commits@)[n - 1] == commits_of(self.buf@)[n - 1]);
            }
            self.commits[n - 1].1
        }
    }

    /// The committed region of the buffer.
    pub fn committed(&self) -> (r: &'a [u8])
        ensures
            r@ == self.source().subrange(0, committed_end_of(self.source())),
    {
        let end = self.committed_end();
        vstd::slice::slice_subrange(self.buf, 0, end)
    }

    /// Uncommitted trailing bytes: the residue of an interrupted append.
    pub fn tail(&self) -> (r: &'a [u8])
        ensures
            r@ == self.source().subrange(committed_end_of(self.source()), self.source().len() as int),
    {
        let end = self.committed_end();
        vstd::slice::slice_subrange(self.buf, end, self.buf.len())
    }

    /// True if uncommitted bytes trail the last commit marker.
    pub fn torn(&self) -> (r: bool)
        ensures
            r == (committed_end_of(self.source()) < self.source().len()),
    {
        self.committed_end() < self.buf.len()
    }

    /// Number of committed blocks.
    pub fn block_count(&self) -> (r: usize)
        ensures
            r == blocks_of(self.source()).len(),
    {
        proof {
            use_type_invariant(self);
        }
        self.commits.len()
    }

    /// Committed block by index: the bytes between the previous commit and
    /// this block's ETB (marker and payload excluded).
    pub fn block(&self, i: usize) -> (r: &'a [u8])
        requires
            i < blocks_of(self.source()).len(),
        ensures
            r@ == blocks_of(self.source())[i as int],
    {
        proof {
            use_type_invariant(self);
        }
        let ghost c = commits_of(self.buf@);
        proof {
            assert(commit_spans(self.commits@)[i as int] == c[i as int]);
        }
        let start = if i == 0 {
            0
        } else {
            proof {
                assert(commit_spans(self.commits@)[i - 1] == c[i - 1]);
                assert(c[i - 1].1 <= c[i as int].0);
            }
            self.commits[i - 1].1
        };
        vstd::slice::slice_subrange(self.buf, start, self.commits[i].0)
    }

    /// All committed blocks, in order.
    pub fn blocks(&self) -> (r: Vec<&'a [u8]>)
        ensures
            r@.len() == blocks_of(self.source()).len(),
            forall|i: int| 0 <= i < r@.len() ==> (#[trigger] r@[i])@ == blocks_of(self.source())[i],
    {
        let n = self.block_count();
        let mut out: Vec<&'a [u8]> = Vec::new();
        for i in 0..n
            invariant
                n == blocks_of(self.source()).len(),
                out@.len() == i,
                forall|k: int| 0 <= k < i ==> (#[trigger] out@[k])@ == blocks_of(self.source())[k],
        {
            out.push(self.block(i));
        }
        out
    }

    /// The committed region as a [`Table`].
    pub fn table(&self) -> (r: Table<'a>)
        ensures
            r.view() == table_at(self.source().subrange(0, committed_end_of(self.source())), 0),
    {
        Table::new(self.committed())
    }
}

/// Build one block's bytes plus its trailing ETB commit marker: the bytes
/// are what `f` leaves in a builder that started empty, then ETB.
pub fn commit_bytes<F: FnOnce(&mut Builder)>(f: F) -> (r: Vec<u8>)
    requires
        forall|b: &mut Builder| #[trigger] f.requires((b,)),
    ensures
        exists|b: &mut Builder|
            {
                &&& f.ensures((b,), ())
                &&& (*b).view() == Seq::<u8>::empty()
                &&& r@ == (*final(b)).view().push(ETB)
            },
{
    let mut b = Builder::new();
    f(&mut b);
    assert(exists|bb: &mut Builder| f.ensures((bb,), ()));
    assert(exists|bb: &mut Builder|
        f.ensures((bb,), ()) && (*bb).view() == Seq::<u8>::empty() && (*final(bb)).view()
            == b.view());
    b.etb();
    b.into_bytes()
}

/// One record as a committed block.
pub fn record_block(fields: &[&str]) -> (r: Vec<u8>)
    ensures
        r@ == record_bytes(strs_bytes(fields@)).push(ETB),
{
    let mut b = Builder::new();
    b.record(fields);
    b.etb();
    b.into_bytes()
}

/// An SOH header as a committed block.
pub fn header_block(names: &[&str]) -> (r: Vec<u8>)
    requires
        all_names(names@),
    ensures
        r@ == header_bytes(strs_bytes(names@)).push(ETB),
{
    let mut b = Builder::new();
    b.header(names);
    b.etb();
    b.into_bytes()
}

/// A group preamble as a committed block.
pub fn group_block(name: &str, headers: Option<&[&str]>) -> (r: Vec<u8>)
    requires
        is_name(name.spec_bytes()),
        headers matches Some(h) ==> all_names(h@),
    ensures
        r@ == group_bytes(
            name.spec_bytes(),
            match headers {
                Some(h) => Some(strs_bytes(h@)),
                None => None,
            },
        ).push(ETB),
{
    let mut b = Builder::new();
    b.group(name, headers);
    b.etb();
    b.into_bytes()
}

#[verifier::external_type_specification]
#[verifier::external_body]
pub struct ExIoError(std::io::Error);

/// Appends ETB-committed blocks to any `std::io::Write` sink (e.g. an
/// in-memory buffer or a socket). Each block and its ETB are written as one
/// unit and flushed.
pub struct StreamWriter<W> {
    sink: Sink<W>,
}

impl<W> StreamWriter<W> {
    /// The sink the blocks are written to.
    pub closed spec fn sink(&self) -> W {
        self.sink.inner()
    }

    /// Every call made on the sink so far.
    pub closed spec fn calls(&self) -> Seq<SinkCall> {
        self.sink.calls()
    }

    /// The bytes the sink has accepted so far: every block whose `write_all`
    /// succeeded, in order.
    pub closed spec fn sent(&self) -> Seq<u8> {
        self.sink.accepted()
    }

    /// What the last call on the sink returned.
    pub closed spec fn last_result(&self) -> std::io::Result<()> {
        self.sink.last()
    }

    /// `self` is `before` after one block was written: one `write_all` of
    /// exactly `block`, then, if it succeeded, one `flush`; the block counts
    /// as sent when `write_all` succeeded; `r` is what the last call
    /// returned (the error of `write_all`, else the result of `flush`).
    pub open spec fn wrote_block(&self, before: &Self, block: Seq<u8>, r: std::io::Result<()>) -> bool {
        let w = before.calls().push(SinkCall::Write(block));
        &&& ((self.calls() == w && r is Err && self.sent() == before.sent()) || (self.calls()
            == w.push(SinkCall::Flush) && self.sent() == before.sent() + block))
        &&& r == self.last_result()
    }
}

impl<W: std::io::Write> StreamWriter<W> {
    pub fn new(sink: W) -> (r: Self)
        ensures
            r.sink() == sink,
            r.calls() == Seq::<SinkCall>::empty(),
            r.sent() == Seq::<u8>::empty(),
    {
        StreamWriter { sink: Sink::new(sink) }
    }

    /// Append one record as a committed block.
    pub fn record(&mut self, fields: &[&str]) -> (r: std::io::Result<()>)
        ensures
            final(self).wrote_block(old(self), record_bytes(strs_bytes(fields@)).push(ETB), r),
    {
        let bytes = record_block(fields);
        self.emit(bytes)
    }

    /// Append an SOH header as a committed block.
    pub fn header(&mut self, names: &[&str]) -> (r: std::io::Result<()>)
        requires
            all_names(names@),
        ensures
            final(self).wrote_block(old(self), header_bytes(strs_bytes(names@)).push(ETB), r),
    {
        let bytes = header_block(names);
        self.emit(bytes)
    }

    /// Append a group preamble (GS + name) as a committed block.
    pub fn group(&mut self, name: &str, headers: Option<&[&str]>) -> (r: std::io::Result<()>)
        requires
            is_name(name.spec_bytes()),
            headers matches Some(h) ==> all_names(h@),
        ensures
            final(self).wrote_block(
                old(self),
                group_bytes(
                    name.spec_bytes(),
                    match headers {
                        Some(h) => Some(strs_bytes(h@)),
                        None => None,
                    },
                ).push(ETB),
                r,
            ),
    {
        let bytes = group_block(name, headers);
        self.emit(bytes)
    }

    /// Append several records under a single commit (an atomic batch): the
    /// block is what `f` writes into an empty builder, then ETB.
    pub fn batch<F: FnOnce(&mut Builder)>(&mut self, f: F) -> (r: std::io::Result<()>)
        requires
            forall|b: &mut Builder| #[trigger] f.requires((b,)),
        ensures
            exists|b: &mut Builder|
                {
                    &&& f.ensures((b,), ())
                    &&& (*b).view() == Seq::<u8>::empty()
                    &&& final(self).wrote_block(old(self), (*final(b)).view().push(ETB), r)
                },
    {
        let bytes = commit_bytes(f);
        let ghost block = bytes@;
        let r = self.emit(bytes);
        assert(exists|b: &mut Builder|
            {
                &&& f.ensures((b,), ())
                &&& (*b).view() == Seq::<u8>::empty()
                &&& block == (*final(b)).view().push(ETB)
            });
        r
    }

    /// Recover the underlying sink.
    pub fn into_inner(self) -> (r: W)
        ensures
            r == self.sink(),
    {
        self.sink.into_inner()
    }

    // Hands a block to `write_all`, then flushes if that succeeded.
    fn emit(&mut self, bytes: Vec<u8>) -> (r: std::io::Result<()>)
        ensures
            final(self).wrote_block(old(self), bytes@, r),
    {
        match self.sink.write_all(bytes.as_slice()) {
            Ok(()) => {},
            Err(e) => {
                return Err(e);
            },
        }
        self.sink.flush()
    }
}

} // verus!
