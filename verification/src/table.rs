//! Tabular groups: a GS name, an optional SOH header, and RS records whose
//! fields are separated by US.

use vstd::prelude::*;

use std::borrow::Cow;

use crate::scan::{
    clamp, lemma_data_run, lemma_nested_end, lemma_spans_push, nested_end, scan_data, skip_nested,
    slice_len, spans_bytes, spans_of, spans_within,
};
use crate::tokenizer::data_run_end;
use crate::{cow_bytes, unescape, unescaped, DLE, EOT, ETB, ETX, FS, GS, RS, SOH, STX, US};

verus! {

/// Skip ETB commit markers and their payloads (stream-mode framing).
pub open spec fn skip_commits(s: Seq<u8>, p: int) -> int
    decreases s.len() - p,
{
    if 0 <= p < s.len() && s[p] == ETB && p < data_run_end(s, p + 1) <= s.len() {
        skip_commits(s, data_run_end(s, p + 1))
    } else {
        p
    }
}

/// Spans of the SOH header fields that start at `p` (the current field began
/// at `fs`), and the position where the header ends.
pub open spec fn header_spans(s: Seq<u8>, p: int, fs: int) -> (Seq<(int, int)>, int)
    decreases s.len() - p,
{
    if p < 0 || p >= s.len() {
        (seq![(fs, p)], p)
    } else if s[p] == US {
        let (rest, end) = header_spans(s, p + 1, p + 1);
        (seq![(fs, p)] + rest, end)
    } else if s[p] < 0x20 {
        (seq![(fs, p)], p)
    } else {
        header_spans(s, p + 1, fs)
    }
}

/// A byte that ends a record.
pub open spec fn ends_record(b: u8) -> bool {
    b == RS || b == GS || b == FS || b == EOT || b == ETX || b == ETB
}

/// A byte that ends a table's records.
pub open spec fn ends_table(b: u8) -> bool {
    b == GS || b == FS || b == EOT || b == ETX
}

/// The end of the record content that continues at `p`: escaped bytes and
/// nested scopes are content.
pub open spec fn record_end(s: Seq<u8>, p: int) -> int
    decreases s.len() - p,
{
    if p < 0 || p >= s.len() || ends_record(s[p]) {
        p
    } else if s[p] == DLE {
        record_end(s, clamp(p + 2, s.len() as int))
    } else if s[p] == STX {
        let q = nested_end(s, p + 1, 1, s.len() as int);
        if q <= p || q > s.len() {
            p
        } else {
            record_end(s, q)
        }
    } else {
        record_end(s, p + 1)
    }
}

/// Spans of the records from `p` on: each RS opens a record, and GS, FS, EOT
/// or ETX ends the table.
pub open spec fn record_spans(s: Seq<u8>, p: int) -> Seq<(int, int)>
    decreases s.len() - p,
{
    if p < 0 || p >= s.len() || ends_table(s[p]) {
        Seq::empty()
    } else if s[p] == RS {
        let e = record_end(s, p + 1);
        if e <= p || e > s.len() {
            Seq::empty()
        } else {
            seq![(p + 1, e)] + record_spans(s, e)
        }
    } else {
        record_spans(s, p + 1)
    }
}

/// The name, header and record spans of the table that starts at `off`.
pub open spec fn table_spans(s: Seq<u8>, off: int) -> ((int, int), Seq<(int, int)>, Seq<(int, int)>) {
    if off < 0 || off >= s.len() {
        ((0, 0), Seq::empty(), Seq::empty())
    } else {
        let named = s[off] == GS;
        let name = if named {
            (off + 1, data_run_end(s, off + 1))
        } else {
            (0, 0)
        };
        let p1 = if named {
            data_run_end(s, off + 1)
        } else {
            off
        };
        let p2 = skip_commits(s, p1);
        let (headers, p3) = if p2 < s.len() && s[p2] == SOH {
            header_spans(s, p2 + 1, p2 + 1)
        } else {
            (Seq::empty(), p2)
        };
        (name, headers, record_spans(s, p3))
    }
}

/// What a table holds: its name, its header names and its raw records.
#[verifier::ext_equal]
pub struct TableView {
    pub name: Seq<u8>,
    pub headers: Seq<Seq<u8>>,
    pub records: Seq<Seq<u8>>,
}

/// The table that starts at `off` in `s`.
pub open spec fn table_at(s: Seq<u8>, off: int) -> TableView {
    let (name, headers, records) = table_spans(s, off);
    TableView {
        name: s.subrange(name.0, name.1),
        headers: spans_bytes(s, headers),
        records: spans_bytes(s, records),
    }
}

/// Spans of the fields of a record from `p` on (the current field began at
/// `fs`). US inside a nested scope or after DLE is not a boundary.
pub open spec fn field_spans(r: Seq<u8>, p: int, fs: int) -> Seq<(int, int)>
    decreases r.len() - p,
{
    if p < 0 || p >= r.len() {
        seq![(fs, r.len() as int)]
    } else if r[p] == US {
        seq![(fs, p)] + field_spans(r, p + 1, p + 1)
    } else if r[p] == DLE {
        field_spans(r, clamp(p + 2, r.len() as int), fs)
    } else if r[p] == STX {
        let q = nested_end(r, p + 1, 1, r.len() as int);
        if q <= p || q > r.len() {
            seq![(fs, r.len() as int)]
        } else {
            field_spans(r, q, fs)
        }
    } else {
        field_spans(r, p + 1, fs)
    }
}

/// The raw fields of a record (N separators give N + 1 fields).
pub open spec fn fields_of(r: Seq<u8>) -> Seq<Seq<u8>> {
    spans_bytes(r, field_spans(r, 0, 0))
}

/// Field `n` of a record, or nothing when there is no such field.
pub open spec fn field_of(r: Seq<u8>, n: int) -> Seq<u8> {
    if 0 <= n < fields_of(r).len() {
        fields_of(r)[n]
    } else {
        Seq::empty()
    }
}

proof fn lemma_skip_commits(s: Seq<u8>, p: int)
    requires
        0 <= p <= s.len(),
    ensures
        p <= skip_commits(s, p) <= s.len(),
    decreases s.len() - p,
{
    if 0 <= p < s.len() && s[p] == ETB && p < data_run_end(s, p + 1) <= s.len() {
        lemma_data_run(s, p + 1);
        lemma_skip_commits(s, data_run_end(s, p + 1));
    }
}

proof fn lemma_header_spans(s: Seq<u8>, p: int, fs: int)
    requires
        0 <= fs <= p <= s.len(),
    ensures
        p <= header_spans(s, p, fs).1 <= s.len(),
        spans_within(header_spans(s, p, fs).0, s.len() as int),
    decreases s.len() - p,
{
    if p < s.len() {
        if s[p] == US {
            lemma_header_spans(s, p + 1, p + 1);
        } else if s[p] >= 0x20 {
            lemma_header_spans(s, p + 1, fs);
        }
    }
}

proof fn lemma_record_end(s: Seq<u8>, p: int)
    requires
        0 <= p <= s.len(),
    ensures
        p <= record_end(s, p) <= s.len(),
    decreases s.len() - p,
{
    if p < s.len() && !ends_record(s[p]) {
        if s[p] == DLE {
            lemma_record_end(s, clamp(p + 2, s.len() as int));
        } else if s[p] == STX {
            lemma_nested_end(s, p + 1, 1, s.len() as int);
            let q = nested_end(s, p + 1, 1, s.len() as int);
            if q > p {
                lemma_record_end(s, q);
            }
        } else {
            lemma_record_end(s, p + 1);
        }
    }
}

proof fn lemma_record_spans(s: Seq<u8>, p: int)
    requires
        0 <= p <= s.len(),
    ensures
        spans_within(record_spans(s, p), s.len() as int),
    decreases s.len() - p,
{
    if p < s.len() && !ends_table(s[p]) {
        if s[p] == RS {
            lemma_record_end(s, p + 1);
            let e = record_end(s, p + 1);
            if e > p {
                lemma_record_spans(s, e);
            }
        } else {
            lemma_record_spans(s, p + 1);
        }
    }
}

proof fn lemma_field_spans(r: Seq<u8>, p: int, fs: int)
    requires
        0 <= fs <= p <= r.len(),
    ensures
        spans_within(field_spans(r, p, fs), r.len() as int),
        field_spans(r, p, fs).len() >= 1,
        field_spans(r, p, fs).len() <= r.len() - p + 1,
    decreases r.len() - p,
{
    if p < r.len() {
        if r[p] == US {
            lemma_field_spans(r, p + 1, p + 1);
        } else if r[p] == DLE {
            lemma_field_spans(r, clamp(p + 2, r.len() as int), fs);
        } else if r[p] == STX {
            lemma_nested_end(r, p + 1, 1, r.len() as int);
            let q = nested_end(r, p + 1, 1, r.len() as int);
            if q > p {
                lemma_field_spans(r, q, fs);
            }
        } else {
            lemma_field_spans(r, p + 1, fs);
        }
    }
}

proof fn lemma_table_spans(s: Seq<u8>, off: int)
    ensures
        0 <= table_spans(s, off).0.0 <= table_spans(s, off).0.1 <= s.len(),
        spans_within(table_spans(s, off).1, s.len() as int),
        spans_within(table_spans(s, off).2, s.len() as int),
{
    if 0 <= off < s.len() {
        let named = s[off] == GS;
        lemma_data_run(s, off + 1);
        let p1 = if named {
            data_run_end(s, off + 1)
        } else {
            off
        };
        lemma_skip_commits(s, p1);
        let p2 = skip_commits(s, p1);
        if p2 < s.len() && s[p2] == SOH {
            lemma_header_spans(s, p2 + 1, p2 + 1);
            lemma_record_spans(s, header_spans(s, p2 + 1, p2 + 1).1);
        } else {
            lemma_record_spans(s, p2);
        }
    }
}

/// Accessor for a tabular C0DATA group.
///
/// Scans the buffer once to index record positions, then gives access to
/// records and fields as slices of the original buffer.
pub struct Table<'a> {
    buf: &'a [u8],
    name: (usize, usize),
    headers: Vec<(usize, usize)>,
    records: Vec<(usize, usize)>,
}

impl<'a> Table<'a> {
    #[verifier::type_invariant]
    spec fn inv(&self) -> bool {
        &&& self.name.0 <= self.name.1 <= self.buf@.len()
        &&& spans_within(spans_of(self.headers@), self.buf@.len() as int)
        &&& spans_within(spans_of(self.records@), self.buf@.len() as int)
    }

    /// The indexed table: name, header names and raw records.
    pub closed spec fn view(&self) -> TableView {
        TableView {
            name: self.buf@.subrange(self.name.0 as int, self.name.1 as int),
            headers: spans_bytes(self.buf@, spans_of(self.headers@)),
            records: spans_bytes(self.buf@, spans_of(self.records@)),
        }
    }

    /// The buffer the table reads.
    pub closed spec fn source(&self) -> Seq<u8> {
        self.buf@
    }

    /// Index a tabular group starting at the beginning of `buf`.
    pub fn new(buf: &'a [u8]) -> (t: Self)
        ensures
            t.view() == table_at(buf@, 0),
            t.source() == buf@,
    {
        Self::with_offset(buf, 0)
    }

    /// Index a tabular group starting at `offset` (e.g. a group's GS byte).
    pub fn with_offset(buf: &'a [u8], offset: usize) -> (t: Self)
        ensures
            t.view() == table_at(buf@, offset as int),
            t.source() == buf@,
    {
        let len = buf.len();
        proof {
            lemma_table_spans(buf@, offset as int);
        }
        if offset >= len {
            let t = Table { buf, name: (0, 0), headers: Vec::new(), records: Vec::new() };
            proof {
                assert(spans_bytes(buf@, spans_of(t.headers@)) =~= Seq::<Seq<u8>>::empty());
                assert(spans_bytes(buf@, spans_of(t.records@)) =~= Seq::<Seq<u8>>::empty());
                assert(t.view() =~= table_at(buf@, offset as int));
            }
            return t;
        }
        let ghost s = buf@;
        let mut pos = offset;
        let mut name: (usize, usize) = (0, 0);
        if buf[pos] == GS {
            let name_start = pos + 1;
            pos = scan_data(buf, name_start);
            name = (name_start, pos);
        }
        // Skip ETB commit markers and their payloads.
        proof {
            lemma_skip_commits(s, pos as int);
        }
        while pos < len && buf[pos] == ETB
            invariant
                offset <= pos <= len == s.len(),
                buf@ == s,
                skip_commits(s, pos as int) == skip_commits(
                    s,
                    if s[offset as int] == GS {
                        data_run_end(s, offset + 1)
                    } else {
                        offset as int
                    },
                ),
            decreases len - pos,
        {
            pos = scan_data(buf, pos + 1);
        }
        let mut headers: Vec<(usize, usize)> = Vec::new();
        if pos < len && buf[pos] == SOH {
            pos = scan_header(buf, pos + 1, &mut headers);
        } else {
            proof {
                assert(spans_of(headers@) =~= Seq::<(int, int)>::empty());
            }
        }
        let mut records: Vec<(usize, usize)> = Vec::new();
        scan_records(buf, pos, &mut records);
        let t = Table { buf, name, headers, records };
        proof {
            let (n, h, r) = table_spans(s, offset as int);
            assert(t.view().headers =~= table_at(s, offset as int).headers);
            assert(t.view().records =~= table_at(s, offset as int).records);
        }
        t
    }

    /// Group/table name as a slice of the buffer.
    pub fn name(&self) -> (r: &'a [u8])
        ensures
            r@ == self.view().name,
    {
        proof {
            use_type_invariant(self);
        }
        vstd::slice::slice_subrange(self.buf, self.name.0, self.name.1)
    }

    /// Number of header fields.
    pub fn header_count(&self) -> (r: usize)
        ensures
            r == self.view().headers.len(),
    {
        self.headers.len()
    }

    /// Header field name by index.
    pub fn header(&self, i: usize) -> (r: &'a [u8])
        requires
            i < self.view().headers.len(),
        ensures
            r@ == self.view().headers[i as int],
    {
        proof {
            use_type_invariant(self);
            assert(spans_of(self.headers@)[i as int].0 <= spans_of(self.headers@)[i as int].1);
        }
        let (s, e) = self.headers[i];
        vstd::slice::slice_subrange(self.buf, s, e)
    }

    /// All header names.
    pub fn headers(&self) -> (r: Vec<&'a [u8]>)
        ensures
            r@.len() == self.view().headers.len(),
            forall|i: int| 0 <= i < r@.len() ==> (#[trigger] r@[i])@ == self.view().headers[i],
    {
        let mut out: Vec<&'a [u8]> = Vec::new();
        let n = self.headers.len();
        for i in 0..n
            invariant
                n == self.view().headers.len(),
                out@.len() == i,
                forall|k: int| 0 <= k < i ==> (#[trigger] out@[k])@ == self.view().headers[k],
        {
            out.push(self.header(i));
        }
        out
    }

    /// Number of records.
    pub fn record_count(&self) -> (r: usize)
        ensures
            r == self.view().records.len(),
    {
        self.records.len()
    }

    /// Access a record by index.
    pub fn record(&self, i: usize) -> (r: Record<'a>)
        requires
            i < self.view().records.len(),
        ensures
            r.view() == self.view().records[i as int],
    {
        proof {
            use_type_invariant(self);
            assert(spans_of(self.records@)[i as int].0 <= spans_of(self.records@)[i as int].1);
        }
        let (s, e) = self.records[i];
        Record { buf: self.buf, start: s, end: e }
    }

    /// All records, in order.
    pub fn records(&self) -> (r: Vec<Record<'a>>)
        ensures
            r@.len() == self.view().records.len(),
            forall|i: int| 0 <= i < r@.len() ==> (#[trigger] r@[i]).view() == self.view().records[i],
    {
        let mut out: Vec<Record<'a>> = Vec::new();
        let n = self.records.len();
        for i in 0..n
            invariant
                n == self.view().records.len(),
                out@.len() == i,
                forall|k: int| 0 <= k < i ==> (#[trigger] out@[k]).view() == self.view().records[k],
        {
            out.push(self.record(i));
        }
        out
    }
}

/// Read the SOH header fields that start at `pos`, appending their spans;
/// returns where the header ends.
fn scan_header(buf: &[u8], pos: usize, out: &mut Vec<(usize, usize)>) -> (r: usize)
    requires
        1 <= pos <= buf@.len(),
        old(out)@.len() == 0,
    ensures
        spans_of(final(out)@) == header_spans(buf@, pos as int, pos as int).0,
        r == header_spans(buf@, pos as int, pos as int).1,
        r <= buf@.len(),
{
    let len = buf.len();
    let mut p = pos;
    let mut field_start = pos;
    proof {
        lemma_header_spans(buf@, pos as int, pos as int);
        assert(spans_of(out@) =~= Seq::<(int, int)>::empty());
    }
    while p < len
        invariant
            pos <= field_start <= p <= len == buf@.len(),
            header_spans(buf@, pos as int, pos as int).0 == spans_of(out@) + header_spans(
                buf@,
                p as int,
                field_start as int,
            ).0,
            header_spans(buf@, pos as int, pos as int).1 == header_spans(
                buf@,
                p as int,
                field_start as int,
            ).1,
        decreases len - p,
    {
        let byte = buf[p];
        if byte == US {
            proof {
                lemma_spans_push(out@, (field_start, p));
                let rest = header_spans(buf@, p + 1, p + 1).0;
                assert(spans_of(out@) + (seq![(field_start as int, p as int)] + rest)
                    == spans_of(out@).push((field_start as int, p as int)) + rest);
            }
            out.push((field_start, p));
            p = p + 1;
            field_start = p;
        } else if byte < 0x20 {
            proof {
                lemma_spans_push(out@, (field_start, p));
            }
            out.push((field_start, p));
            return p;
        } else {
            p = p + 1;
        }
    }
    proof {
        lemma_spans_push(out@, (field_start, p));
    }
    out.push((field_start, p));
    p
}

/// The end of the record content that continues at `pos`.
fn scan_record_end(buf: &[u8], pos: usize) -> (r: usize)
    requires
        pos <= buf@.len(),
    ensures
        r == record_end(buf@, pos as int),
{
    let len = buf.len();
    let mut p = pos;
    proof {
        lemma_record_end(buf@, pos as int);
    }
    while p < len
        invariant
            pos <= p <= len == buf@.len(),
            record_end(buf@, p as int) == record_end(buf@, pos as int),
        decreases len - p,
    {
        let b = buf[p];
        if b == RS || b == GS || b == FS || b == EOT || b == ETX || b == ETB {
            return p;
        }
        if b == DLE {
            if len - p < 2 {
                p = len;
            } else {
                p = p + 2;
            }
        } else if b == STX {
            p = skip_nested(buf, p, len);
        } else {
            p = p + 1;
        }
    }
    p
}

/// Index the records from `pos` on, appending their spans.
fn scan_records(buf: &[u8], pos: usize, out: &mut Vec<(usize, usize)>)
    requires
        pos <= buf@.len(),
        old(out)@.len() == 0,
    ensures
        spans_of(final(out)@) == record_spans(buf@, pos as int),
{
    let len = buf.len();
    let mut p = pos;
    proof {
        assert(spans_of(out@) =~= Seq::<(int, int)>::empty());
    }
    while p < len
        invariant
            p <= len == buf@.len(),
            record_spans(buf@, pos as int) == spans_of(out@) + record_spans(buf@, p as int),
        decreases len - p,
    {
        let byte = buf[p];
        if byte == GS || byte == FS || byte == EOT || byte == ETX {
            proof {
                assert(spans_of(out@) + Seq::<(int, int)>::empty() == spans_of(out@));
            }
            return;
        }
        if byte == RS {
            let rec_start = p + 1;
            let e = scan_record_end(buf, rec_start);
            proof {
                lemma_record_end(buf@, rec_start as int);
                lemma_spans_push(out@, (rec_start, e));
                let rest = record_spans(buf@, e as int);
                assert(spans_of(out@) + (seq![(rec_start as int, e as int)] + rest)
                    == spans_of(out@).push((rec_start as int, e as int)) + rest);
            }
            out.push((rec_start, e));
            p = e;
        } else {
            p = p + 1;
        }
    }
    proof {
        assert(spans_of(out@) + Seq::<(int, int)>::empty() == spans_of(out@));
    }
}

/// Accessor for a single record within a table.
pub struct Record<'a> {
    buf: &'a [u8],
    start: usize,
    end: usize,
}

impl<'a> Record<'a> {
    #[verifier::type_invariant]
    spec fn inv(&self) -> bool {
        self.start <= self.end <= self.buf@.len()
    }

    /// The raw bytes of the record.
    pub closed spec fn view(&self) -> Seq<u8> {
        self.buf@.subrange(self.start as int, self.end as int)
    }

    /// Field by index; empty when there is no such field. Respects STX/ETX
    /// nesting: US inside a nested scope is not a boundary.
    pub fn field(&self, n: usize) -> (r: &'a [u8])
        ensures
            r@ == field_of(self.view(), n as int),
    {
        proof {
            use_type_invariant(self);
        }
        let raw = vstd::slice::slice_subrange(self.buf, self.start, self.end);
        let ghost rv = raw@;
        let len = raw.len();
        let mut pos: usize = 0;
        let mut field_idx: usize = 0;
        let mut field_start: usize = 0;
        let ghost mut done: Seq<(int, int)> = Seq::empty();
        proof {
            lemma_field_spans(rv, 0, 0);
        }
        while pos < len
            invariant
                rv == raw@,
                rv == self.view(),
                len == rv.len(),
                field_start <= pos <= len,
                field_idx == done.len(),
                field_idx <= n,
                field_spans(rv, 0, 0) == done + field_spans(rv, pos as int, field_start as int),
            decreases len - pos,
        {
            let byte = raw[pos];
            if byte == US {
                if field_idx == n {
                    proof {
                        assert(field_spans(rv, 0, 0)[n as int] == (field_start as int, pos as int));
                        lemma_field_spans(rv, 0, 0);
                    }
                    return vstd::slice::slice_subrange(raw, field_start, pos);
                }
                proof {
                    let rest = field_spans(rv, pos + 1, pos + 1);
                    assert(done + (seq![(field_start as int, pos as int)] + rest) == done.push(
                        (field_start as int, pos as int),
                    ) + rest);
                    done = done.push((field_start as int, pos as int));
                }
                field_idx = field_idx + 1;
                pos = pos + 1;
                field_start = pos;
            } else if byte == DLE {
                if len - pos < 2 {
                    pos = len;
                } else {
                    pos = pos + 2;
                }
            } else if byte == STX {
                pos = skip_nested(raw, pos, len);
            } else {
                pos = pos + 1;
            }
        }
        proof {
            lemma_field_spans(rv, 0, 0);
            assert(field_spans(rv, 0, 0) == done.push((field_start as int, len as int)));
        }
        if field_idx == n {
            return vstd::slice::slice_subrange(raw, field_start, pos);
        }
        let empty: &[u8] = &[];
        proof {
            assert(empty@ =~= Seq::<u8>::empty());
        }
        empty
    }

    /// Number of fields in this record. Respects STX/ETX nesting.
    pub fn field_count(&self) -> (r: usize)
        ensures
            r == fields_of(self.view()).len(),
    {
        proof {
            use_type_invariant(self);
        }
        let raw = vstd::slice::slice_subrange(self.buf, self.start, self.end);
        let ghost rv = raw@;
        let len = slice_len(raw);
        let mut count: usize = 1;
        let mut pos: usize = 0;
        let ghost mut fs: int = 0;
        proof {
            lemma_field_spans(rv, 0, 0);
        }
        while pos < len
            invariant
                rv == raw@,
                rv == self.view(),
                len == rv.len() <= isize::MAX,
                0 <= fs <= pos <= len,
                1 <= count <= pos + 1,
                field_spans(rv, 0, 0).len() == count - 1 + field_spans(rv, pos as int, fs).len(),
            decreases len - pos,
        {
            let byte = raw[pos];
            if byte == US {
                count = count + 1;
                pos = pos + 1;
                proof {
                    fs = pos as int;
                }
            } else if byte == DLE {
                if len - pos < 2 {
                    pos = len;
                } else {
                    pos = pos + 2;
                }
            } else if byte == STX {
                pos = skip_nested(raw, pos, len);
            } else {
                pos = pos + 1;
            }
        }
        count
    }

    /// All fields as slices.
    pub fn fields(&self) -> (r: Vec<&'a [u8]>)
        ensures
            r@.len() == fields_of(self.view()).len(),
            forall|i: int| 0 <= i < r@.len() ==> (#[trigger] r@[i])@ == fields_of(self.view())[i],
    {
        let n = self.field_count();
        let mut out: Vec<&'a [u8]> = Vec::new();
        for i in 0..n
            invariant
                n == fields_of(self.view()).len(),
                out@.len() == i,
                forall|k: int| 0 <= k < i ==> (#[trigger] out@[k])@ == fields_of(self.view())[k],
        {
            out.push(self.field(i));
        }
        out
    }

    /// Logical bytes of field `n`: the raw slice with DLE escapes decoded.
    /// Borrowed when the field contains no escapes.
    pub fn value(&self, n: usize) -> (r: Cow<'a, [u8]>)
        ensures
            cow_bytes(r) == unescaped(field_of(self.view(), n as int)),
            (r is Borrowed) <==> !field_of(self.view(), n as int).contains(crate::DLE),
    {
        unescape(self.field(n))
    }

    /// All logical field values.
    pub fn values(&self) -> (r: Vec<Cow<'a, [u8]>>)
        ensures
            r@.len() == fields_of(self.view()).len(),
            forall|i: int|
                0 <= i < r@.len() ==> cow_bytes(#[trigger] r@[i]) == unescaped(
                    fields_of(self.view())[i],
                ),
    {
        let n = self.field_count();
        let mut out: Vec<Cow<'a, [u8]>> = Vec::new();
        for i in 0..n
            invariant
                n == fields_of(self.view()).len(),
                out@.len() == i,
                forall|k: int|
                    0 <= k < i ==> cow_bytes(#[trigger] out@[k]) == unescaped(
                        fields_of(self.view())[k],
                    ),
        {
            out.push(self.value(i));
        }
        out
    }

    /// Raw bytes of the entire record.
    pub fn raw(&self) -> (r: &'a [u8])
        ensures
            r@ == self.view(),
    {
        proof {
            use_type_invariant(self);
        }
        vstd::slice::slice_subrange(self.buf, self.start, self.end)
    }
}

} // verus!
