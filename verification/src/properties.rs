//! Properties that span the writer and the readers: what a reader gives back
//! of what the builder wrote.

use vstd::prelude::*;

use crate::builder::{escape, escape_byte, escaped_all, group_bytes, header_bytes, is_name, joined, record_bytes};
use crate::scan::{clamp, spans_bytes};
use crate::table::{TableView, ends_record, field_of, field_spans, fields_of, header_spans, record_end, record_spans, skip_commits, table_at};
use crate::diff::{apply_section, apply_sections, find_from, section_bytes, unit_bytes, unit_filled, applied, edit_key, lemma_applied_len, lemma_find_from, edits_of, edits_from, flush_units, pattern_of, replacement_of, section_scan, sections_from, span_data, FileEditView, UnitView};
use crate::pretty_roundtrip::opens_line;
use crate::document::{body_start, document_of, gs_run_end, groups_from};
use crate::stream::{blocks_of, commits_from, commits_of, committed_end_of, lemma_commits_from};
use crate::tokenizer::data_run_end;
use crate::{canonical_from, is_canonical, unescape_from, unescaped, assigned_code, DLE, EOT, ETB, FS, GS, RS, SOH, SUB, US};

verus! {

/// The bytes of consecutive records.
pub open spec fn records_bytes(rows: Seq<Seq<Seq<u8>>>) -> Seq<u8>
    decreases rows.len(),
{
    if rows.len() == 0 {
        Seq::empty()
    } else {
        record_bytes(rows[0]) + records_bytes(rows.drop_first())
    }
}

/// `t` occurs in `s` at `p`.
pub open spec fn occurs_at(s: Seq<u8>, p: int, t: Seq<u8>) -> bool {
    0 <= p && p + t.len() <= s.len() && s.subrange(p, p + t.len()) == t
}

pub proof fn lemma_occurs_split(s: Seq<u8>, p: int, a: Seq<u8>, b: Seq<u8>)
    requires
        occurs_at(s, p, a + b),
    ensures
        occurs_at(s, p, a),
        occurs_at(s, p + a.len(), b),
{
    let w = s.subrange(p, p + a.len() + b.len());
    assert(w == a + b);
    assert(s.subrange(p, p + a.len()) =~= w.subrange(0, a.len() as int));
    assert(w.subrange(0, a.len() as int) =~= a);
    assert(s.subrange(p + a.len(), p + a.len() + b.len()) =~= w.subrange(
        a.len() as int,
        (a.len() + b.len()) as int,
    ));
    assert(w.subrange(a.len() as int, (a.len() + b.len()) as int) =~= b);
}

pub proof fn lemma_occurs_index(s: Seq<u8>, p: int, t: Seq<u8>, k: int)
    requires
        occurs_at(s, p, t),
        0 <= k < t.len(),
    ensures
        s[p + k] == t[k],
{
    assert(s.subrange(p, p + t.len())[k] == s[p + k]);
}

proof fn lemma_escape_cons(b: u8, v: Seq<u8>)
    ensures
        escape(seq![b] + v) == escape_byte(b) + escape(v),
    decreases v.len(),
{
    let w = seq![b] + v;
    if v.len() == 0 {
        assert(w.drop_last() =~= Seq::<u8>::empty());
        assert(escape(Seq::<u8>::empty()) == Seq::<u8>::empty());
        assert(escape_byte(b) + Seq::<u8>::empty() =~= escape_byte(b));
    } else {
        assert(w.drop_last() =~= seq![b] + v.drop_last());
        lemma_escape_cons(b, v.drop_last());
        assert(escape_byte(b) + escape(v.drop_last()) + escape_byte(v.last()) =~= escape_byte(b)
            + (escape(v.drop_last()) + escape_byte(v.last())));
    }
}

pub proof fn lemma_escape_front(v: Seq<u8>)
    requires
        v.len() > 0,
    ensures
        escape(v) == escape_byte(v[0]) + escape(v.drop_first()),
{
    assert(v =~= seq![v[0]] + v.drop_first());
    lemma_escape_cons(v[0], v.drop_first());
}

/// Reading an escaped value back through the unescaper gives the value.
pub proof fn lemma_unescape_walk(s: Seq<u8>, p: int, v: Seq<u8>)
    requires
        occurs_at(s, p, escape(v)),
    ensures
        unescape_from(s, p) == v + unescape_from(s, p + escape(v).len()),
    decreases v.len(),
{
    if v.len() == 0 {
        assert(v + unescape_from(s, p) =~= unescape_from(s, p));
    } else {
        lemma_escape_front(v);
        let e0 = escape_byte(v[0]);
        lemma_occurs_split(s, p, e0, escape(v.drop_first()));
        lemma_occurs_index(s, p, e0, 0);
        if v[0] < 0x20 {
            lemma_occurs_index(s, p, e0, 1);
        }
        lemma_unescape_walk(s, p + e0.len(), v.drop_first());
        assert(v =~= seq![v[0]] + v.drop_first());
    }
}

/// Unescaping undoes escaping.
pub proof fn unescape_escape(v: Seq<u8>)
    ensures
        unescaped(escape(v)) == v,
{
    let e = escape(v);
    assert(e.subrange(0, e.len() as int) =~= e);
    lemma_unescape_walk(e, 0, v);
    assert(v + Seq::<u8>::empty() =~= v);
}

proof fn lemma_record_end_escape(s: Seq<u8>, p: int, v: Seq<u8>)
    requires
        occurs_at(s, p, escape(v)),
    ensures
        record_end(s, p) == record_end(s, p + escape(v).len()),
    decreases v.len(),
{
    if v.len() > 0 {
        lemma_escape_front(v);
        let e0 = escape_byte(v[0]);
        lemma_occurs_split(s, p, e0, escape(v.drop_first()));
        lemma_occurs_index(s, p, e0, 0);
        if v[0] < 0x20 {
            lemma_occurs_index(s, p, e0, 1);
            assert(clamp(p + 2, s.len() as int) == p + 2);
        }
        lemma_record_end_escape(s, p + e0.len(), v.drop_first());
    }
}

proof fn lemma_record_end_joined(s: Seq<u8>, p: int, fs: Seq<Seq<u8>>)
    requires
        fs.len() > 0,
        occurs_at(s, p, joined(escaped_all(fs))),
    ensures
        record_end(s, p) == record_end(s, p + joined(escaped_all(fs)).len()),
    decreases fs.len(),
{
    let parts = escaped_all(fs);
    if fs.len() == 1 {
        assert(joined(parts) == parts[0]);
        lemma_record_end_escape(s, p, fs[0]);
    } else {
        let front = fs.drop_last();
        assert(escaped_all(front) =~= parts.drop_last());
        let j1 = joined(parts.drop_last());
        lemma_occurs_split(s, p, j1 + seq![US], parts.last());
        lemma_occurs_split(s, p, j1, seq![US]);
        lemma_record_end_joined(s, p, front);
        lemma_occurs_index(s, p + j1.len(), seq![US], 0);
        assert(!ends_record(US));
        lemma_record_end_escape(s, p + j1.len() + 1, fs.last());
    }
}

proof fn lemma_field_spans_escape(r: Seq<u8>, p: int, fs: int, v: Seq<u8>)
    requires
        occurs_at(r, p, escape(v)),
    ensures
        field_spans(r, p, fs) == field_spans(r, p + escape(v).len(), fs),
    decreases v.len(),
{
    if v.len() > 0 {
        lemma_escape_front(v);
        let e0 = escape_byte(v[0]);
        lemma_occurs_split(r, p, e0, escape(v.drop_first()));
        lemma_occurs_index(r, p, e0, 0);
        if v[0] < 0x20 {
            lemma_occurs_index(r, p, e0, 1);
            assert(clamp(p + 2, r.len() as int) == p + 2);
        }
        lemma_field_spans_escape(r, p + e0.len(), fs, v.drop_first());
    }
}

proof fn lemma_joined_front(parts: Seq<Seq<u8>>)
    requires
        parts.len() > 1,
    ensures
        joined(parts) == parts[0] + seq![US] + joined(parts.drop_first()),
    decreases parts.len(),
{
    if parts.len() == 2 {
        assert(parts.drop_last() =~= seq![parts[0]]);
        assert(parts.drop_first() =~= seq![parts[1]]);
        assert(joined(parts.drop_last()) == parts[0]);
        assert(joined(parts.drop_first()) == parts[1]);
    } else {
        lemma_joined_front(parts.drop_last());
        assert(joined(parts.drop_first()) == joined(parts.drop_first().drop_last()) + seq![US]
            + parts.drop_first().last());
        assert(parts.drop_last().drop_first() =~= parts.drop_first().drop_last());
        assert(parts.drop_first().last() == parts.last());
        assert(parts[0] + seq![US] + joined(parts.drop_first().drop_last()) + seq![US]
            + parts.last() =~= parts[0] + seq![US] + (joined(parts.drop_first().drop_last())
            + seq![US] + parts.last()));
    }
}

proof fn lemma_fields_walk(r: Seq<u8>, p: int, fs: Seq<Seq<u8>>)
    requires
        fs.len() > 0,
        0 <= p <= r.len(),
        r.subrange(p, r.len() as int) == joined(escaped_all(fs)),
    ensures
        spans_bytes(r, field_spans(r, p, p)) == escaped_all(fs),
    decreases fs.len(),
{
    let parts = escaped_all(fs);
    let e0 = parts[0];
    assert(occurs_at(r, p, joined(parts)));
    if fs.len() == 1 {
        lemma_field_spans_escape(r, p, p, fs[0]);
        assert(p + e0.len() == r.len());
        assert(spans_bytes(r, field_spans(r, p, p)) =~= seq![r.subrange(p, r.len() as int)]);
        assert(escaped_all(fs) =~= seq![e0]);
    } else {
        lemma_joined_front(parts);
        let rest = fs.drop_first();
        assert(escaped_all(rest) =~= parts.drop_first());
        lemma_occurs_split(r, p, e0 + seq![US], joined(parts.drop_first()));
        lemma_occurs_split(r, p, e0, seq![US]);
        lemma_field_spans_escape(r, p, p, fs[0]);
        let q = p + e0.len();
        lemma_occurs_index(r, q, seq![US], 0);
        assert(r.subrange(q + 1, r.len() as int) =~= joined(parts.drop_first()));
        lemma_fields_walk(r, q + 1, rest);
        let tail = field_spans(r, q + 1, q + 1);
        assert(field_spans(r, p, p) == seq![(p, q)] + tail);
        assert(spans_bytes(r, seq![(p, q)] + tail) =~= seq![r.subrange(p, q)] + spans_bytes(r, tail));
        assert(escaped_all(fs) =~= seq![e0] + escaped_all(rest));
    }
}

/// A record written from fields reads back as those fields: the raw fields
/// are the escaped values, and each decodes to its value.
pub proof fn record_fields_read_back(fs: Seq<Seq<u8>>)
    requires
        fs.len() > 0,
    ensures
        fields_of(joined(escaped_all(fs))) == escaped_all(fs),
        forall|j: int|
            0 <= j < fs.len() ==> unescaped(#[trigger] field_of(joined(escaped_all(fs)), j))
                == fs[j],
{
    let r = joined(escaped_all(fs));
    assert(r.subrange(0, r.len() as int) =~= r);
    lemma_fields_walk(r, 0, fs);
    assert forall|j: int| 0 <= j < fs.len() implies unescaped(
        #[trigger] field_of(joined(escaped_all(fs)), j),
    ) == fs[j] by {
        unescape_escape(fs[j]);
    }
}

pub proof fn lemma_data_run_name(s: Seq<u8>, p: int, n: Seq<u8>)
    requires
        is_name(n),
        occurs_at(s, p, n),
    ensures
        data_run_end(s, p) == data_run_end(s, p + n.len()),
    decreases n.len(),
{
    if n.len() > 0 {
        assert(n =~= seq![n[0]] + n.drop_first());
        lemma_occurs_split(s, p, seq![n[0]], n.drop_first());
        lemma_occurs_index(s, p, n, 0);
        lemma_data_run_name(s, p + 1, n.drop_first());
    }
}

proof fn lemma_header_spans_name(s: Seq<u8>, p: int, fsx: int, n: Seq<u8>)
    requires
        is_name(n),
        occurs_at(s, p, n),
    ensures
        header_spans(s, p, fsx) == header_spans(s, p + n.len(), fsx),
    decreases n.len(),
{
    if n.len() > 0 {
        assert(n =~= seq![n[0]] + n.drop_first());
        lemma_occurs_split(s, p, seq![n[0]], n.drop_first());
        lemma_occurs_index(s, p, n, 0);
        lemma_header_spans_name(s, p + 1, fsx, n.drop_first());
    }
}

proof fn lemma_headers_walk(s: Seq<u8>, p: int, names: Seq<Seq<u8>>)
    requires
        names.len() > 0,
        forall|i: int| 0 <= i < names.len() ==> is_name(#[trigger] names[i]),
        occurs_at(s, p, joined(names)),
        p + joined(names).len() == s.len() || (s[p + joined(names).len()] < 0x20 && s[p
            + joined(names).len()] != US),
    ensures
        spans_bytes(s, header_spans(s, p, p).0) == names,
        header_spans(s, p, p).1 == p + joined(names).len(),
    decreases names.len(),
{
    let n0 = names[0];
    if names.len() == 1 {
        assert(joined(names) == n0);
        lemma_header_spans_name(s, p, p, n0);
        let q = p + n0.len();
        assert(header_spans(s, p, p).0 == seq![(p, q)]);
        assert(spans_bytes(s, seq![(p, q)]) =~= seq![s.subrange(p, q)]);
        assert(names =~= seq![n0]);
    } else {
        lemma_joined_front(names);
        let rest = names.drop_first();
        lemma_occurs_split(s, p, n0 + seq![US], joined(rest));
        lemma_occurs_split(s, p, n0, seq![US]);
        lemma_header_spans_name(s, p, p, n0);
        let q = p + n0.len();
        lemma_occurs_index(s, q, seq![US], 0);
        assert(q + 1 + joined(rest).len() == p + joined(names).len());
        lemma_headers_walk(s, q + 1, rest);
        let tail = header_spans(s, q + 1, q + 1).0;
        assert(header_spans(s, p, p).0 == seq![(p, q)] + tail);
        assert(spans_bytes(s, seq![(p, q)] + tail) =~= seq![s.subrange(p, q)] + spans_bytes(s, tail));
        assert(names =~= seq![n0] + rest);
    }
}

/// The raw records that `rows` are written as.
pub open spec fn raw_rows(rows: Seq<Seq<Seq<u8>>>) -> Seq<Seq<u8>> {
    Seq::new(rows.len(), |i: int| joined(escaped_all(rows[i])))
}

proof fn lemma_records_walk(s: Seq<u8>, p: int, rows: Seq<Seq<Seq<u8>>>)
    requires
        occurs_at(s, p, records_bytes(rows)),
        p + records_bytes(rows).len() == s.len() || s[p + records_bytes(rows).len()] == GS,
    ensures
        spans_bytes(s, record_spans(s, p)) == raw_rows(rows),
    decreases rows.len(),
{
    if rows.len() == 0 {
        assert(record_spans(s, p) == Seq::<(int, int)>::empty());
        assert(spans_bytes(s, record_spans(s, p)) =~= raw_rows(rows));
    } else {
        let j0 = joined(escaped_all(rows[0]));
        let rest = rows.drop_first();
        lemma_occurs_split(s, p, record_bytes(rows[0]), records_bytes(rest));
        lemma_occurs_split(s, p, seq![RS], j0);
        lemma_occurs_index(s, p, seq![RS], 0);
        let e = p + 1 + j0.len();
        if rows[0].len() > 0 {
            lemma_record_end_joined(s, p + 1, rows[0]);
        }
        if e < s.len() && rest.len() > 0 {
            lemma_occurs_index(s, e, records_bytes(rest), 0);
            assert(records_bytes(rest)[0] == RS);
        }
        assert(record_end(s, e) == e);
        assert(record_end(s, p + 1) == e);
        lemma_records_walk(s, e, rest);
        let tail = record_spans(s, e);
        assert(record_spans(s, p) == seq![(p + 1, e)] + tail);
        assert(spans_bytes(s, seq![(p + 1, e)] + tail) =~= seq![s.subrange(p + 1, e)] + spans_bytes(
            s,
            tail,
        ));
        assert(raw_rows(rows) =~= seq![j0] + raw_rows(rest));
    }
}

/// The header names a group opening declares: none without SOH.
pub open spec fn declared_headers(headers: Option<Seq<Seq<u8>>>) -> Seq<Seq<u8>> {
    match headers {
        Some(h) => h,
        None => Seq::empty(),
    }
}

/// Header names are valid when each is a name and, if a header is written,
/// it declares at least one field.
pub open spec fn valid_headers(headers: Option<Seq<Seq<u8>>>) -> bool {
    match headers {
        Some(h) => h.len() > 0 && forall|i: int| 0 <= i < h.len() ==> is_name(#[trigger] h[i]),
        None => true,
    }
}

/// The table the builder wrote at `p`, followed by the end of the buffer or
/// by the next group, reads back.
proof fn lemma_table_at(
    s: Seq<u8>,
    p: int,
    name: Seq<u8>,
    headers: Option<Seq<Seq<u8>>>,
    rows: Seq<Seq<Seq<u8>>>,
)
    requires
        is_name(name),
        valid_headers(headers),
        occurs_at(s, p, table_bytes(name, headers, rows)),
        p + table_bytes(name, headers, rows).len() == s.len() || s[p + table_bytes(
            name,
            headers,
            rows,
        ).len()] == GS,
    ensures
        ({
            let t = table_at(s, p);
            &&& t.name == name
            &&& t.headers == declared_headers(headers)
            &&& t.records == raw_rows(rows)
        }),
{
    let hb = match headers {
        Some(h) => header_bytes(h),
        None => Seq::<u8>::empty(),
    };
    let rb = records_bytes(rows);
    let end = p + table_bytes(name, headers, rows).len();
    assert(table_bytes(name, headers, rows) =~= seq![GS] + name + hb + rb);
    lemma_occurs_split(s, p, seq![GS] + name + hb, rb);
    lemma_occurs_split(s, p, seq![GS] + name, hb);
    lemma_occurs_split(s, p, seq![GS], name);
    lemma_occurs_index(s, p, seq![GS], 0);
    let p1: int = p + 1 + name.len() as int;
    // the byte after the name is a control byte, or the end
    if p1 < s.len() {
        if hb.len() > 0 {
            lemma_occurs_index(s, p1, hb, 0);
        } else if rb.len() > 0 {
            lemma_occurs_index(s, p1, rb, 0);
            assert(rb[0] == RS);
        } else {
            assert(p1 == end);
        }
    }
    lemma_data_run_name(s, p + 1, name);
    assert(data_run_end(s, p1) == p1);
    assert(skip_commits(s, p1) == p1);
    let p3: int = p1 + hb.len();
    match headers {
        Some(h) => {
            lemma_occurs_split(s, p1, seq![SOH], joined(h));
            lemma_occurs_index(s, p1, seq![SOH], 0);
            if p3 < s.len() {
                if rb.len() > 0 {
                    lemma_occurs_index(s, p3, rb, 0);
                    assert(rb[0] == RS);
                } else {
                    assert(p3 == end);
                }
            }
            lemma_headers_walk(s, p1 + 1, h);
        },
        None => {
            if p1 < s.len() {
                if rb.len() > 0 {
                    assert(s[p1] == RS);
                } else {
                    assert(s[p1] == GS);
                }
            }
            assert(spans_bytes(s, Seq::<(int, int)>::empty()) =~= Seq::<Seq<u8>>::empty());
        },
    }
    lemma_records_walk(s, p3, rows);
    assert(s.subrange(p + 1, p1) =~= name);
}

/// A group written as a name, an optional header and records reads back as
/// a table with that name, those headers and those records.
pub proof fn table_reads_back(
    name: Seq<u8>,
    headers: Option<Seq<Seq<u8>>>,
    rows: Seq<Seq<Seq<u8>>>,
)
    requires
        is_name(name),
        valid_headers(headers),
    ensures
        ({
            let t = table_at(group_bytes(name, headers) + records_bytes(rows), 0);
            &&& t.name == name
            &&& t.headers == declared_headers(headers)
            &&& t.records == raw_rows(rows)
        }),
{
    let s = group_bytes(name, headers) + records_bytes(rows);
    assert(s.subrange(0, s.len() as int) =~= s);
    lemma_table_at(s, 0, name, headers, rows);
}

/// What the builder wrote for a group reads back field by field: each
/// record with at least one field has as many fields as were written, and
/// each field decodes to the value written.
pub proof fn table_fields_read_back(
    name: Seq<u8>,
    headers: Option<Seq<Seq<u8>>>,
    rows: Seq<Seq<Seq<u8>>>,
    i: int,
    j: int,
)
    requires
        is_name(name),
        valid_headers(headers),
        0 <= i < rows.len(),
        0 <= j < rows[i].len(),
    ensures
        ({
            let t = table_at(group_bytes(name, headers) + records_bytes(rows), 0);
            &&& fields_of(t.records[i]).len() == rows[i].len()
            &&& unescaped(field_of(t.records[i], j)) == rows[i][j]
        }),
{
    table_reads_back(name, headers, rows);
    record_fields_read_back(rows[i]);
}

proof fn lemma_canon_name(s: Seq<u8>, p: int, n: Seq<u8>)
    requires
        is_name(n),
        occurs_at(s, p, n),
    ensures
        canonical_from(s, p) == canonical_from(s, p + n.len()),
    decreases n.len(),
{
    if n.len() > 0 {
        assert(n =~= seq![n[0]] + n.drop_first());
        lemma_occurs_split(s, p, seq![n[0]], n.drop_first());
        lemma_occurs_index(s, p, n, 0);
        lemma_canon_name(s, p + 1, n.drop_first());
    }
}

proof fn lemma_canon_escape(s: Seq<u8>, p: int, v: Seq<u8>)
    requires
        occurs_at(s, p, escape(v)),
    ensures
        canonical_from(s, p) == canonical_from(s, p + escape(v).len()),
    decreases v.len(),
{
    if v.len() > 0 {
        lemma_escape_front(v);
        let e0 = escape_byte(v[0]);
        lemma_occurs_split(s, p, e0, escape(v.drop_first()));
        lemma_occurs_index(s, p, e0, 0);
        if v[0] < 0x20 {
            lemma_occurs_index(s, p, e0, 1);
        }
        lemma_canon_escape(s, p + e0.len(), v.drop_first());
    }
}

/// A structural byte the builder writes between names and values.
pub open spec fn structural(b: u8) -> bool {
    assigned_code(b) && b != DLE && b != ETB && b != EOT
}

proof fn lemma_canon_byte(s: Seq<u8>, p: int, b: u8)
    requires
        structural(b),
        occurs_at(s, p, seq![b]),
    ensures
        canonical_from(s, p) == canonical_from(s, p + 1),
{
    lemma_occurs_index(s, p, seq![b], 0);
}

proof fn lemma_canon_joined_names(s: Seq<u8>, p: int, names: Seq<Seq<u8>>)
    requires
        forall|i: int| 0 <= i < names.len() ==> is_name(#[trigger] names[i]),
        occurs_at(s, p, joined(names)),
    ensures
        canonical_from(s, p) == canonical_from(s, p + joined(names).len()),
    decreases names.len(),
{
    if names.len() == 1 {
        lemma_canon_name(s, p, names[0]);
    } else if names.len() > 1 {
        let front = names.drop_last();
        let j1 = joined(front);
        lemma_occurs_split(s, p, j1 + seq![US], names.last());
        lemma_occurs_split(s, p, j1, seq![US]);
        lemma_canon_joined_names(s, p, front);
        lemma_canon_byte(s, p + j1.len(), US);
        lemma_canon_name(s, p + j1.len() + 1, names.last());
    }
}

proof fn lemma_canon_joined_values(s: Seq<u8>, p: int, fs: Seq<Seq<u8>>)
    requires
        occurs_at(s, p, joined(escaped_all(fs))),
    ensures
        canonical_from(s, p) == canonical_from(s, p + joined(escaped_all(fs)).len()),
    decreases fs.len(),
{
    let parts = escaped_all(fs);
    if fs.len() == 1 {
        lemma_canon_escape(s, p, fs[0]);
    } else if fs.len() > 1 {
        let front = fs.drop_last();
        assert(escaped_all(front) =~= parts.drop_last());
        let j1 = joined(parts.drop_last());
        lemma_occurs_split(s, p, j1 + seq![US], parts.last());
        lemma_occurs_split(s, p, j1, seq![US]);
        lemma_canon_joined_values(s, p, front);
        lemma_canon_byte(s, p + j1.len(), US);
        lemma_canon_escape(s, p + j1.len() + 1, fs.last());
    }
}

proof fn lemma_canon_records(s: Seq<u8>, p: int, rows: Seq<Seq<Seq<u8>>>)
    requires
        occurs_at(s, p, records_bytes(rows)),
    ensures
        canonical_from(s, p) == canonical_from(s, p + records_bytes(rows).len()),
    decreases rows.len(),
{
    if rows.len() > 0 {
        let j0 = joined(escaped_all(rows[0]));
        let rest = rows.drop_first();
        lemma_occurs_split(s, p, record_bytes(rows[0]), records_bytes(rest));
        lemma_occurs_split(s, p, seq![RS], j0);
        lemma_canon_byte(s, p, RS);
        lemma_canon_joined_values(s, p + 1, rows[0]);
        lemma_canon_records(s, p + 1 + j0.len(), rest);
    }
}

/// The bytes of a whole group: its opening, then its records.
pub open spec fn table_bytes(
    name: Seq<u8>,
    headers: Option<Seq<Seq<u8>>>,
    rows: Seq<Seq<Seq<u8>>>,
) -> Seq<u8> {
    group_bytes(name, headers) + records_bytes(rows)
}

/// Every header name is a name (an empty header list is allowed).
pub open spec fn names_ok(headers: Option<Seq<Seq<u8>>>) -> bool {
    match headers {
        Some(h) => forall|i: int| 0 <= i < h.len() ==> is_name(#[trigger] h[i]),
        None => true,
    }
}

proof fn lemma_canon_table(
    s: Seq<u8>,
    p: int,
    name: Seq<u8>,
    headers: Option<Seq<Seq<u8>>>,
    rows: Seq<Seq<Seq<u8>>>,
)
    requires
        is_name(name),
        names_ok(headers),
        occurs_at(s, p, table_bytes(name, headers, rows)),
    ensures
        canonical_from(s, p) == canonical_from(s, p + table_bytes(name, headers, rows).len()),
{
    let hb = match headers {
        Some(h) => header_bytes(h),
        None => Seq::<u8>::empty(),
    };
    let rb = records_bytes(rows);
    assert(table_bytes(name, headers, rows) =~= seq![GS] + name + hb + rb);
    lemma_occurs_split(s, p, seq![GS] + name + hb, rb);
    lemma_occurs_split(s, p, seq![GS] + name, hb);
    lemma_occurs_split(s, p, seq![GS], name);
    lemma_canon_byte(s, p, GS);
    lemma_canon_name(s, p + 1, name);
    let p1 = p + 1 + name.len();
    match headers {
        Some(h) => {
            lemma_occurs_split(s, p1, seq![SOH], joined(h));
            lemma_canon_byte(s, p1, SOH);
            lemma_canon_joined_names(s, p1 + 1, h);
        },
        None => {},
    }
    lemma_canon_records(s, p1 + hb.len(), rows);
}

/// A group opening, as the builder's `group` writes it.
pub struct GroupSpec {
    pub name: Seq<u8>,
    pub headers: Option<Seq<Seq<u8>>>,
    pub rows: Seq<Seq<Seq<u8>>>,
}

/// The bytes of consecutive groups.
pub open spec fn groups_bytes(groups: Seq<GroupSpec>) -> Seq<u8>
    decreases groups.len(),
{
    if groups.len() == 0 {
        Seq::empty()
    } else {
        table_bytes(groups[0].name, groups[0].headers, groups[0].rows) + groups_bytes(
            groups.drop_first(),
        )
    }
}

/// The bytes of a document: an optional FS file name, then its groups.
pub open spec fn document_bytes(file: Option<Seq<u8>>, groups: Seq<GroupSpec>) -> Seq<u8> {
    match file {
        Some(f) => seq![crate::FS] + f + groups_bytes(groups),
        None => groups_bytes(groups),
    }
}

proof fn lemma_canon_groups(s: Seq<u8>, p: int, groups: Seq<GroupSpec>)
    requires
        forall|i: int|
            0 <= i < groups.len() ==> is_name(#[trigger] groups[i].name) && names_ok(
                groups[i].headers,
            ),
        occurs_at(s, p, groups_bytes(groups)),
    ensures
        canonical_from(s, p) == canonical_from(s, p + groups_bytes(groups).len()),
    decreases groups.len(),
{
    if groups.len() > 0 {
        let g = groups[0];
        let t = table_bytes(g.name, g.headers, g.rows);
        let rest = groups.drop_first();
        lemma_occurs_split(s, p, t, groups_bytes(rest));
        lemma_canon_table(s, p, g.name, g.headers, g.rows);
        assert forall|i: int| 0 <= i < rest.len() implies is_name(#[trigger] rest[i].name)
            && names_ok(rest[i].headers) by {
            assert(rest[i] == groups[i + 1]);
        }
        lemma_canon_groups(s, p + t.len(), rest);
    }
}

/// Whatever the builder writes as a document (an optional file name, then
/// groups with optional headers and records) is in canonical form.
pub proof fn built_document_is_canonical(file: Option<Seq<u8>>, groups: Seq<GroupSpec>)
    requires
        file matches Some(f) ==> is_name(f),
        forall|i: int|
            0 <= i < groups.len() ==> is_name(#[trigger] groups[i].name) && names_ok(
                groups[i].headers,
            ),
    ensures
        is_canonical(document_bytes(file, groups)),
{
    let s = document_bytes(file, groups);
    assert(s.subrange(0, s.len() as int) =~= s);
    let gb = groups_bytes(groups);
    match file {
        Some(f) => {
            lemma_occurs_split(s, 0, seq![crate::FS] + f, gb);
            lemma_occurs_split(s, 0, seq![crate::FS], f);
            lemma_canon_byte(s, 0, crate::FS);
            lemma_canon_name(s, 1, f);
            lemma_canon_groups(s, 1 + f.len() as int, groups);
        },
        None => {
            lemma_canon_groups(s, 0, groups);
        },
    }
}


// ---- stream mode ----

/// The bytes of records appended one committed block each: each record,
/// then ETB.
pub open spec fn log_bytes(rows: Seq<Seq<Seq<u8>>>) -> Seq<u8>
    decreases rows.len(),
{
    if rows.len() == 0 {
        Seq::empty()
    } else {
        record_bytes(rows[0]).push(ETB) + log_bytes(rows.drop_first())
    }
}

/// The commit markers of such blocks written from `p` on.
pub open spec fn log_commits(rows: Seq<Seq<Seq<u8>>>, p: int) -> Seq<(int, int)>
    decreases rows.len(),
{
    if rows.len() == 0 {
        Seq::empty()
    } else {
        let e = p + record_bytes(rows[0]).len();
        seq![(e, e + 1)] + log_commits(rows.drop_first(), e + 1)
    }
}

proof fn lemma_commits_escape(s: Seq<u8>, p: int, v: Seq<u8>)
    requires
        occurs_at(s, p, escape(v)),
    ensures
        commits_from(s, p) == commits_from(s, p + escape(v).len()),
    decreases v.len(),
{
    if v.len() > 0 {
        lemma_escape_front(v);
        let e0 = escape_byte(v[0]);
        lemma_occurs_split(s, p, e0, escape(v.drop_first()));
        lemma_occurs_index(s, p, e0, 0);
        if v[0] < 0x20 {
            lemma_occurs_index(s, p, e0, 1);
            assert(clamp(p + 2, s.len() as int) == p + 2);
        }
        lemma_commits_escape(s, p + e0.len(), v.drop_first());
    }
}

proof fn lemma_commits_joined(s: Seq<u8>, p: int, fs: Seq<Seq<u8>>)
    requires
        occurs_at(s, p, joined(escaped_all(fs))),
    ensures
        commits_from(s, p) == commits_from(s, p + joined(escaped_all(fs)).len()),
    decreases fs.len(),
{
    let parts = escaped_all(fs);
    if fs.len() == 1 {
        assert(joined(parts) == parts[0]);
        lemma_commits_escape(s, p, fs[0]);
    } else if fs.len() > 1 {
        let front = fs.drop_last();
        assert(escaped_all(front) =~= parts.drop_last());
        let j1 = joined(parts.drop_last());
        lemma_occurs_split(s, p, j1 + seq![US], parts.last());
        lemma_occurs_split(s, p, j1, seq![US]);
        lemma_commits_joined(s, p, front);
        lemma_occurs_index(s, p + j1.len(), seq![US], 0);
        lemma_commits_escape(s, p + j1.len() + 1, fs.last());
    }
}

proof fn lemma_commits_record(s: Seq<u8>, p: int, fs: Seq<Seq<u8>>)
    requires
        occurs_at(s, p, record_bytes(fs)),
    ensures
        commits_from(s, p) == commits_from(s, p + record_bytes(fs).len()),
{
    lemma_occurs_split(s, p, seq![RS], joined(escaped_all(fs)));
    lemma_occurs_index(s, p, seq![RS], 0);
    lemma_commits_joined(s, p + 1, fs);
}

proof fn lemma_commits_log(s: Seq<u8>, p: int, rows: Seq<Seq<Seq<u8>>>)
    requires
        occurs_at(s, p, log_bytes(rows)),
        p + log_bytes(rows).len() == s.len() || s[p + log_bytes(rows).len()] < 0x20,
    ensures
        commits_from(s, p) == log_commits(rows, p) + commits_from(s, p + log_bytes(rows).len()),
    decreases rows.len(),
{
    if rows.len() == 0 {
        assert(log_commits(rows, p) + commits_from(s, p) =~= commits_from(s, p));
    } else {
        let r0 = record_bytes(rows[0]);
        let rest = rows.drop_first();
        let e = p + r0.len();
        lemma_occurs_split(s, p, r0.push(ETB), log_bytes(rest));
        assert(r0.push(ETB) =~= r0 + seq![ETB]);
        lemma_occurs_split(s, p, r0, seq![ETB]);
        lemma_occurs_index(s, e, seq![ETB], 0);
        lemma_commits_record(s, p, rows[0]);
        if rest.len() > 0 {
            let r1 = record_bytes(rest[0]);
            lemma_occurs_split(s, e + 1, r1.push(ETB), log_bytes(rest.drop_first()));
            lemma_occurs_index(s, e + 1, r1.push(ETB), 0);
        }
        assert(data_run_end(s, e + 1) == e + 1);
        lemma_commits_log(s, e + 1, rest);
        assert(commits_from(s, e) == seq![(e, e + 1)] + commits_from(s, e + 1));
        assert(log_commits(rows, p) + commits_from(s, p + log_bytes(rows).len()) =~= seq![(e, e + 1)]
            + (log_commits(rest, e + 1) + commits_from(s, e + 1 + log_bytes(rest).len())));
    }
}

proof fn lemma_log_bytes_concat(a: Seq<Seq<Seq<u8>>>, b: Seq<Seq<Seq<u8>>>)
    ensures
        log_bytes(a + b) == log_bytes(a) + log_bytes(b),
    decreases a.len(),
{
    if a.len() == 0 {
        assert(a + b =~= b);
        assert(log_bytes(a) + log_bytes(b) =~= log_bytes(b));
    } else {
        assert((a + b).drop_first() =~= a.drop_first() + b);
        lemma_log_bytes_concat(a.drop_first(), b);
        assert((a + b)[0] == a[0]);
        assert(log_bytes(a + b) =~= log_bytes(a) + log_bytes(b));
    }
}

proof fn lemma_log_one(x: Seq<Seq<u8>>)
    ensures
        log_bytes(seq![x]) == record_bytes(x).push(ETB),
{
    assert(seq![x].drop_first() =~= Seq::<Seq<Seq<u8>>>::empty());
    assert(log_bytes(Seq::<Seq<Seq<u8>>>::empty()) == Seq::<u8>::empty());
    assert(seq![x][0] == x);
    assert(log_bytes(seq![x]) =~= record_bytes(x).push(ETB));
}

proof fn lemma_log_commits_len(rows: Seq<Seq<Seq<u8>>>, p: int)
    ensures
        log_commits(rows, p).len() == rows.len(),
    decreases rows.len(),
{
    if rows.len() > 0 {
        lemma_log_commits_len(rows.drop_first(), p + record_bytes(rows[0]).len() + 1);
    }
}

proof fn lemma_log_commits_index(rows: Seq<Seq<Seq<u8>>>, p: int, i: int)
    requires
        0 <= i < rows.len(),
    ensures
        log_commits(rows, p).len() == rows.len(),
        log_commits(rows, p)[i] == (
            p + log_bytes(rows.take(i)).len() + record_bytes(rows[i]).len(),
            p + log_bytes(rows.take(i)).len() + record_bytes(rows[i]).len() + 1,
        ),
    decreases rows.len(),
{
    let rest = rows.drop_first();
    let e = p + record_bytes(rows[0]).len();
    if rest.len() > 0 {
        lemma_log_commits_index(rest, e + 1, if i > 0 {
            i - 1
        } else {
            0
        });
    } else {
        assert(log_commits(rest, e + 1) =~= Seq::<(int, int)>::empty());
    }
    if i == 0 {
        assert(rows.take(0) =~= Seq::<Seq<Seq<u8>>>::empty());
    } else {
        let t = rows.take(i);
        assert(t[0] == rows[0]);
        assert(t.drop_first() =~= rest.take(i - 1));
        assert(rest[i - 1] == rows[i]);
    }
}

proof fn lemma_log_block(rows: Seq<Seq<Seq<u8>>>, i: int)
    requires
        0 <= i < rows.len(),
    ensures
        ({
            let c = log_commits(rows, 0);
            let lo = if i == 0 {
                0
            } else {
                c[i - 1].1
            };
            &&& c.len() == rows.len()
            &&& 0 <= lo <= c[i].0 < c[i].1 <= log_bytes(rows).len()
            &&& log_bytes(rows).subrange(lo, c[i].0) == record_bytes(rows[i])
        }),
{
    let s = log_bytes(rows);
    let c = log_commits(rows, 0);
    lemma_log_commits_index(rows, 0, i);
    let st = log_bytes(rows.take(i)).len() as int;
    if i > 0 {
        lemma_log_commits_index(rows, 0, i - 1);
        assert(rows.take(i) =~= rows.take(i - 1) + seq![rows[i - 1]]);
        lemma_log_bytes_concat(rows.take(i - 1), seq![rows[i - 1]]);
        lemma_log_one(rows[i - 1]);
    }
    assert(rows =~= rows.take(i) + rows.skip(i));
    lemma_log_bytes_concat(rows.take(i), rows.skip(i));
    let tail = rows.skip(i);
    assert(tail[0] == rows[i]);
    let r = record_bytes(rows[i]);
    assert(s.subrange(0, s.len() as int) =~= s);
    lemma_occurs_split(s, 0, log_bytes(rows.take(i)), log_bytes(tail));
    lemma_occurs_split(s, st, r.push(ETB), log_bytes(tail.drop_first()));
    assert(r.push(ETB) =~= r + seq![ETB]);
    lemma_occurs_split(s, st, r, seq![ETB]);
}

/// Records appended as committed blocks read back: one block per record,
/// each holding the record's bytes, and nothing is torn.
pub proof fn stream_log_reads_back(rows: Seq<Seq<Seq<u8>>>)
    ensures
        blocks_of(log_bytes(rows)) == Seq::new(rows.len(), |i: int| record_bytes(rows[i])),
        committed_end_of(log_bytes(rows)) == log_bytes(rows).len(),
{
    let s = log_bytes(rows);
    assert(s.subrange(0, s.len() as int) =~= s);
    lemma_commits_log(s, 0, rows);
    let c = log_commits(rows, 0);
    lemma_log_commits_len(rows, 0);
    assert(commits_of(s) =~= c);
    let want = Seq::new(rows.len(), |i: int| record_bytes(rows[i]));
    assert forall|i: int| 0 <= i < rows.len() implies #[trigger] blocks_of(s)[i] == want[i] by {
        lemma_log_block(rows, i);
    }
    assert(blocks_of(s) =~= want);
    if rows.len() > 0 {
        let n = rows.len() - 1;
        lemma_log_commits_index(rows, 0, n as int);
        assert(rows =~= rows.take(n as int) + seq![rows[n as int]]);
        lemma_log_bytes_concat(rows.take(n as int), seq![rows[n as int]]);
        lemma_log_one(rows[n as int]);
    }
}

/// `s` ends, from `p` on, with a prefix of `t`.
pub open spec fn ends_with_prefix(s: Seq<u8>, p: int, t: Seq<u8>) -> bool {
    0 <= p <= s.len() && s.len() - p <= t.len() && s.subrange(p, s.len() as int) == t.take(
        s.len() - p,
    )
}

proof fn lemma_prefix_shift(s: Seq<u8>, p: int, a: Seq<u8>, b: Seq<u8>)
    requires
        ends_with_prefix(s, p, a + b),
        s.len() - p >= a.len(),
    ensures
        occurs_at(s, p, a),
        ends_with_prefix(s, p + a.len(), b),
{
    let k = s.len() - p;
    let w = s.subrange(p, s.len() as int);
    assert forall|j: int| 0 <= j < a.len() implies #[trigger] s.subrange(p, p + a.len())[j]
        == a[j] by {
        assert(s[p + j] == w[j]);
    }
    assert(s.subrange(p, p + a.len()) =~= a);
    assert forall|j: int| 0 <= j < k - a.len() implies #[trigger] s.subrange(
        p + a.len(),
        s.len() as int,
    )[j] == b.take(k - a.len())[j] by {
        assert(s[p + a.len() + j] == w[a.len() + j]);
    }
    assert(s.subrange(p + a.len(), s.len() as int) =~= b.take(k - a.len()));
}

proof fn lemma_commits_escape_prefix(s: Seq<u8>, p: int, v: Seq<u8>)
    requires
        ends_with_prefix(s, p, escape(v)),
    ensures
        commits_from(s, p) == Seq::<(int, int)>::empty(),
    decreases v.len(),
{
    if p < s.len() {
        if v.len() == 0 {
            assert(escape(v).len() == 0);
        }
        lemma_escape_front(v);
        let e0 = escape_byte(v[0]);
        let rest = escape(v.drop_first());
        let k = s.len() - p;
        let w = s.subrange(p, s.len() as int);
        assert(w == (e0 + rest).take(k));
        assert(s[p] == w[0]);
        assert(w[0] == (e0 + rest)[0]);
        if v[0] < 0x20 {
            assert(s[p] == DLE);
            if k < 2 {
                assert(clamp(p + 2, s.len() as int) == s.len());
                assert(commits_from(s, p) == commits_from(s, s.len() as int));
            } else {
                assert(clamp(p + 2, s.len() as int) == p + 2);
                lemma_prefix_shift(s, p, e0, rest);
                lemma_commits_escape_prefix(s, p + 2, v.drop_first());
                assert(commits_from(s, p) == commits_from(s, p + 2));
            }
        } else {
            assert(s[p] == v[0]);
            lemma_prefix_shift(s, p, e0, rest);
            lemma_commits_escape_prefix(s, p + 1, v.drop_first());
            assert(commits_from(s, p) == commits_from(s, p + 1));
        }
    }
}

proof fn lemma_commits_joined_prefix(s: Seq<u8>, p: int, fs: Seq<Seq<u8>>)
    requires
        ends_with_prefix(s, p, joined(escaped_all(fs))),
    ensures
        commits_from(s, p) == Seq::<(int, int)>::empty(),
    decreases fs.len(),
{
    let parts = escaped_all(fs);
    let k = s.len() - p;
    let w = s.subrange(p, s.len() as int);
    if fs.len() == 0 {
        assert(s.len() == p);
    } else if fs.len() == 1 {
        assert(joined(parts) == parts[0]);
        lemma_commits_escape_prefix(s, p, fs[0]);
    } else {
        let front = fs.drop_last();
        assert(escaped_all(front) =~= parts.drop_last());
        let j1 = joined(parts.drop_last());
        let last = parts.last();
        assert(joined(parts) =~= j1 + seq![US] + last);
        if k <= j1.len() {
            assert forall|i: int| 0 <= i < k implies #[trigger] w[i] == j1.take(k)[i] by {
                assert(w[i] == (j1 + seq![US] + last).take(k)[i]);
            }
            assert(w =~= j1.take(k));
            lemma_commits_joined_prefix(s, p, front);
        } else {
            assert(j1 + seq![US] + last =~= j1 + (seq![US] + last));
            lemma_prefix_shift(s, p, j1, seq![US] + last);
            lemma_commits_joined(s, p, front);
            let q = p + j1.len();
            if q + 1 <= s.len() {
                lemma_prefix_shift(s, q, seq![US], last);
                lemma_occurs_index(s, q, seq![US], 0);
                lemma_commits_escape_prefix(s, q + 1, fs.last());
            }
        }
    }
}

proof fn lemma_commits_record_prefix(s: Seq<u8>, p: int, fs: Seq<Seq<u8>>)
    requires
        ends_with_prefix(s, p, record_bytes(fs)),
    ensures
        commits_from(s, p) == Seq::<(int, int)>::empty(),
{
    if p < s.len() {
        let k = s.len() - p;
        let w = s.subrange(p, s.len() as int);
        let j = joined(escaped_all(fs));
        assert(record_bytes(fs) == seq![RS] + j);
        lemma_prefix_shift(s, p, seq![RS], j);
        lemma_occurs_index(s, p, seq![RS], 0);
        lemma_commits_joined_prefix(s, p + 1, fs);
    }
}

/// A record appended without its commit, cut off anywhere, is a torn tail:
/// the committed blocks before it read back unchanged, and the committed
/// region ends where it begins.
pub proof fn torn_tail_is_not_committed(rows: Seq<Seq<Seq<u8>>>, fields: Seq<Seq<u8>>, k: int)
    requires
        0 <= k <= record_bytes(fields).len(),
    ensures
        ({
            let s = log_bytes(rows) + record_bytes(fields).take(k);
            &&& blocks_of(s) == Seq::new(rows.len(), |i: int| record_bytes(rows[i]))
            &&& committed_end_of(s) == log_bytes(rows).len()
        }),
{
    let l = log_bytes(rows);
    let t = record_bytes(fields).take(k);
    let s = l + t;
    let q = l.len() as int;
    assert(s.subrange(0, q) =~= l);
    if k > 0 {
        assert(s[q] == t[0]);
        assert(t[0] == RS);
    }
    lemma_commits_log(s, 0, rows);
    assert(s.subrange(q, s.len() as int) =~= t);
    lemma_commits_record_prefix(s, q, fields);
    let c = log_commits(rows, 0);
    lemma_log_commits_len(rows, 0);
    assert(commits_of(s) =~= c);
    stream_log_reads_back(rows);
    assert(l.subrange(0, q) =~= l);
    lemma_commits_log(l, 0, rows);
    assert(commits_from(l, q) =~= Seq::<(int, int)>::empty());
    assert(commits_of(l) =~= c);
    let want = Seq::new(rows.len(), |i: int| record_bytes(rows[i]));
    assert forall|i: int| 0 <= i < rows.len() implies #[trigger] blocks_of(s)[i] == want[i] by {
        lemma_log_block(rows, i);
        let lo = if i == 0 {
            0
        } else {
            c[i - 1].1
        };
        assert(s.subrange(lo, c[i].0) =~= l.subrange(lo, c[i].0));
    }
    assert(blocks_of(s) =~= want);
}


// ---- diff ----

/// The section bytes a single find/replace writes after its GS: the
/// context before and US if any, the old text, SUB, the new text, then US
/// and the context after if any; every text escaped.
pub open spec fn replace_section(before: Seq<u8>, old: Seq<u8>, new: Seq<u8>, after: Seq<u8>) -> Seq<u8> {
    (if before.len() > 0 {
        escape(before).push(US)
    } else {
        Seq::empty()
    }) + escape(old) + seq![SUB] + escape(new) + (if after.len() > 0 {
        seq![US] + escape(after)
    } else {
        Seq::empty()
    })
}

/// The units of such a section: the context before as an anchor if any,
/// the substitution, the context after as an anchor if any.
pub open spec fn replace_units(before: Seq<u8>, old: Seq<u8>, new: Seq<u8>, after: Seq<u8>) -> Seq<UnitView> {
    (if before.len() > 0 {
        seq![UnitView::Anchor(before)]
    } else {
        Seq::empty()
    }) + seq![UnitView::Sub { old, new }] + (if after.len() > 0 {
        seq![UnitView::Anchor(after)]
    } else {
        Seq::empty()
    })
}

proof fn lemma_section_walk(
    s: Seq<u8>,
    p: int,
    ds: int,
    units: Seq<UnitView>,
    in_sub: bool,
    v: Seq<u8>,
)
    requires
        occurs_at(s, p, escape(v)),
    ensures
        section_scan(s, p, ds, units, in_sub) == section_scan(s, p + escape(v).len(), ds, units, in_sub),
    decreases v.len(),
{
    if v.len() > 0 {
        lemma_escape_front(v);
        let e0 = escape_byte(v[0]);
        lemma_occurs_split(s, p, e0, escape(v.drop_first()));
        lemma_occurs_index(s, p, e0, 0);
        if v[0] < 0x20 {
            lemma_occurs_index(s, p, e0, 1);
            assert(clamp(p + 2, s.len() as int) == p + 2);
        }
        lemma_section_walk(s, p + e0.len(), ds, units, in_sub, v.drop_first());
    }
}

proof fn lemma_span_escape(s: Seq<u8>, p: int, v: Seq<u8>)
    requires
        occurs_at(s, p, escape(v)),
    ensures
        span_data(s, p, p + escape(v).len()) == v,
{
    unescape_escape(v);
}

proof fn lemma_replace_scan(
    s: Seq<u8>,
    p0: int,
    before: Seq<u8>,
    old: Seq<u8>,
    new: Seq<u8>,
    after: Seq<u8>,
)
    requires
        occurs_at(s, p0, replace_section(before, old, new, after)),
        p0 + replace_section(before, old, new, after).len() == s.len(),
        old.len() > 0,
        new.len() > 0,
    ensures
        section_scan(s, p0, p0, Seq::empty(), false) == (
            replace_units(before, old, new, after),
            s.len() as int,
        ),
{
    let eb = escape(before);
    let eo = escape(old);
    let en = escape(new);
    let ea = escape(after);
    let pre = if before.len() > 0 {
        eb.push(US)
    } else {
        Seq::empty()
    };
    let post = if after.len() > 0 {
        seq![US] + ea
    } else {
        Seq::empty()
    };
    assert(replace_section(before, old, new, after) =~= pre + eo + seq![SUB] + en + post);
    lemma_occurs_split(s, p0, pre + eo + seq![SUB] + en, post);
    lemma_occurs_split(s, p0, pre + eo + seq![SUB], en);
    lemma_occurs_split(s, p0, pre + eo, seq![SUB]);
    lemma_occurs_split(s, p0, pre, eo);
    let po: int = p0 + pre.len();
    let u1 = if before.len() > 0 {
        seq![UnitView::Anchor(before)]
    } else {
        Seq::<UnitView>::empty()
    };
    assert(section_scan(s, p0, p0, Seq::empty(), false) == section_scan(s, po, po, u1, false)) by {
        if before.len() > 0 {
            assert(pre =~= eb + seq![US]);
            lemma_occurs_split(s, p0, eb, seq![US]);
            lemma_occurs_index(s, p0 + eb.len(), seq![US], 0);
            lemma_section_walk(s, p0, p0, Seq::empty(), false, before);
            lemma_span_escape(s, p0, before);
            assert(flush_units(Seq::empty(), false, before) =~= u1);
        }
    }
    let ps: int = po + eo.len();
    let u2 = u1.push(UnitView::Anchor(old));
    assert(section_scan(s, po, po, u1, false) == section_scan(s, ps + 1, ps + 1, u2, true)) by {
        lemma_occurs_index(s, ps, seq![SUB], 0);
        lemma_section_walk(s, po, po, u1, false, old);
        lemma_span_escape(s, po, old);
    }
    let pn: int = ps + 1;
    let pe: int = pn + en.len();
    let u3 = u1.push(UnitView::Sub { old, new });
    let units = replace_units(before, old, new, after);
    lemma_section_walk(s, pn, pn, u2, true, new);
    lemma_span_escape(s, pn, new);
    assert(flush_units(u2, true, new) =~= u3);
    if after.len() > 0 {
        assert(section_scan(s, pn, pn, u2, true) == (units, s.len() as int)) by {
            lemma_occurs_split(s, pe, seq![US], ea);
            lemma_occurs_index(s, pe, seq![US], 0);
            let pa: int = pe + 1;
            lemma_section_walk(s, pa, pa, u3, false, after);
            lemma_span_escape(s, pa, after);
            assert(flush_units(u3, false, after) =~= units);
        }
    } else {
        assert(u3 =~= units);
    }
}

proof fn lemma_replace_texts(before: Seq<u8>, old: Seq<u8>, new: Seq<u8>, after: Seq<u8>)
    ensures
        pattern_of(replace_units(before, old, new, after)) == before + old + after,
        replacement_of(replace_units(before, old, new, after)) == before + new + after,
{
    let units = replace_units(before, old, new, after);
    reveal_with_fuel(pattern_of, 4);
    reveal_with_fuel(replacement_of, 4);
    if before.len() > 0 {
        if after.len() > 0 {
            assert(units =~= seq![UnitView::Anchor(before), UnitView::Sub { old, new }, UnitView::Anchor(after)]);
            assert(units.drop_last().drop_last().drop_last() =~= Seq::<UnitView>::empty());
            assert(units.drop_last().drop_last() =~= seq![UnitView::Anchor(before)]);
        } else {
            assert(units =~= seq![UnitView::Anchor(before), UnitView::Sub { old, new }]);
            assert(units.drop_last().drop_last() =~= Seq::<UnitView>::empty());
        }
    } else {
        if after.len() > 0 {
            assert(units =~= seq![UnitView::Sub { old, new }, UnitView::Anchor(after)]);
            assert(units.drop_last().drop_last() =~= Seq::<UnitView>::empty());
        } else {
            assert(units =~= seq![UnitView::Sub { old, new }]);
        }
    }
    assert(pattern_of(units) =~= before + old + after);
    assert(replacement_of(units) =~= before + new + after);
}

/// A find/replace section with a non-empty old and new text parses back as
/// its context anchors around one substitution: its search pattern is the
/// context with the old text, its replacement the context with the new text.
pub proof fn replace_reads_back(
    path: Seq<u8>,
    before: Seq<u8>,
    old: Seq<u8>,
    new: Seq<u8>,
    after: Seq<u8>,
)
    requires
        is_name(path),
        old.len() > 0,
        new.len() > 0,
    ensures
        edits_of(seq![FS] + path + seq![GS] + replace_section(before, old, new, after)) == seq![
            FileEditView { path, sections: seq![replace_units(before, old, new, after)] },
        ],
        pattern_of(replace_units(before, old, new, after)) == before + old + after,
        replacement_of(replace_units(before, old, new, after)) == before + new + after,
{
    let body = replace_section(before, old, new, after);
    let s = seq![FS] + path + seq![GS] + body;
    let p0: int = 2 + path.len() as int;
    let units = replace_units(before, old, new, after);
    assert(s.subrange(0, s.len() as int) =~= s);
    lemma_occurs_split(s, 0, seq![FS] + path + seq![GS], body);
    lemma_occurs_split(s, 0, seq![FS] + path, seq![GS]);
    lemma_occurs_split(s, 0, seq![FS], path);
    lemma_occurs_index(s, 0, seq![FS], 0);
    lemma_occurs_index(s, p0 - 1, seq![GS], 0);
    lemma_data_run_name(s, 1, path);
    assert(data_run_end(s, 1) == p0 - 1);
    assert(s.subrange(1, p0 - 1) =~= path);
    lemma_replace_scan(s, p0, before, old, new, after);
    assert(sections_from(s, s.len() as int) == (Seq::<Seq<UnitView>>::empty(), s.len() as int));
    assert(sections_from(s, p0 - 1) == (seq![units] + Seq::<Seq<UnitView>>::empty(), s.len() as int));
    assert(seq![units] + Seq::<Seq<UnitView>>::empty() =~= seq![units]);
    assert(edits_from(s, s.len() as int) == Seq::<FileEditView>::empty());
    assert(edits_of(s) =~= seq![FileEditView { path, sections: seq![units] }]);
    lemma_replace_texts(before, old, new, after);
}


/// Adding a unit after others appends US and the unit's bytes, as
/// `SectionBuilder::anchor` and `SectionBuilder::sub` do.
pub proof fn section_bytes_push(us: Seq<UnitView>, u: UnitView)
    requires
        us.len() > 0,
    ensures
        section_bytes(us.push(u)) == section_bytes(us) + seq![US] + unit_bytes(u),
    decreases us.len(),
{
    let w = us.push(u);
    assert(w[0] == us[0]);
    if us.len() == 1 {
        assert(w.drop_first() =~= seq![u]);
        assert(section_bytes(seq![u]) == unit_bytes(u));
    } else {
        assert(w.drop_first() =~= us.drop_first().push(u));
        section_bytes_push(us.drop_first(), u);
        assert(section_bytes(w) =~= section_bytes(us) + seq![US] + unit_bytes(u));
    }
}

proof fn lemma_units_scan(s: Seq<u8>, p: int, acc: Seq<UnitView>, us: Seq<UnitView>)
    requires
        us.len() > 0,
        occurs_at(s, p, section_bytes(us)),
        p + section_bytes(us).len() == s.len(),
        forall|i: int| 0 <= i < us.len() ==> unit_filled(#[trigger] us[i]),
    ensures
        section_scan(s, p, p, acc, false) == (acc + us, s.len() as int),
    decreases us.len(),
{
    let u = us[0];
    assert(unit_filled(u));
    let ub = unit_bytes(u);
    let rest = us.drop_first();
    let tail = if us.len() == 1 {
        Seq::<u8>::empty()
    } else {
        seq![US] + section_bytes(rest)
    };
    assert(section_bytes(us) =~= ub + tail);
    lemma_occurs_split(s, p, ub, tail);
    let q = p + ub.len();
    let acc2 = acc.push(u);
    // after the unit: the end, or US and the next unit
    if us.len() == 1 {
        assert(q == s.len());
        assert(acc2 =~= acc + us);
    } else {
        lemma_occurs_split(s, q, seq![US], section_bytes(rest));
        lemma_occurs_index(s, q, seq![US], 0);
        assert forall|i: int| 0 <= i < rest.len() implies unit_filled(#[trigger] rest[i]) by {
            assert(rest[i] == us[i + 1]);
        }
        lemma_units_scan(s, q + 1, acc2, rest);
        assert(acc2 + rest =~= acc + us);
    }
    match u {
        UnitView::Anchor(a) => {
            lemma_section_walk(s, p, p, acc, false, a);
            lemma_span_escape(s, p, a);
            assert(escape(a).len() > 0) by {
                lemma_escape_front(a);
            }
            assert(flush_units(acc, false, a) =~= acc2);
        },
        UnitView::Sub { old, new } => {
            let eo = escape(old);
            let en = escape(new);
            lemma_occurs_split(s, p, eo + seq![SUB], en);
            lemma_occurs_split(s, p, eo, seq![SUB]);
            let ps = p + eo.len();
            lemma_occurs_index(s, ps, seq![SUB], 0);
            assert(eo.len() > 0) by {
                lemma_escape_front(old);
            }
            assert(en.len() > 0) by {
                lemma_escape_front(new);
            }
            lemma_section_walk(s, p, p, acc, false, old);
            lemma_span_escape(s, p, old);
            let a1 = acc.push(UnitView::Anchor(old));
            assert(section_scan(s, p, p, acc, false) == section_scan(s, ps + 1, ps + 1, a1, true));
            lemma_section_walk(s, ps + 1, ps + 1, a1, true, new);
            lemma_span_escape(s, ps + 1, new);
            assert(flush_units(a1, true, new) =~= acc2);
            assert(q == ps + 1 + en.len());
        },
    }
}

/// A section written as anchors and substitutions, each with non-empty
/// text (control bytes allowed), parses back as those units, in order.
pub proof fn section_reads_back(path: Seq<u8>, us: Seq<UnitView>)
    requires
        is_name(path),
        forall|i: int| 0 <= i < us.len() ==> unit_filled(#[trigger] us[i]),
    ensures
        edits_of(seq![FS] + path + seq![GS] + section_bytes(us)) == seq![
            FileEditView { path, sections: seq![us] },
        ],
{
    let body = section_bytes(us);
    let s = seq![FS] + path + seq![GS] + body;
    let p0: int = 2 + path.len() as int;
    assert(s.subrange(0, s.len() as int) =~= s);
    lemma_occurs_split(s, 0, seq![FS] + path + seq![GS], body);
    lemma_occurs_split(s, 0, seq![FS] + path, seq![GS]);
    lemma_occurs_split(s, 0, seq![FS], path);
    lemma_occurs_index(s, 0, seq![FS], 0);
    lemma_occurs_index(s, p0 - 1, seq![GS], 0);
    lemma_data_run_name(s, 1, path);
    assert(data_run_end(s, 1) == p0 - 1);
    assert(s.subrange(1, p0 - 1) =~= path);
    if us.len() > 0 {
        lemma_units_scan(s, p0, Seq::empty(), us);
        assert(Seq::<UnitView>::empty() + us =~= us);
    } else {
        assert(body == Seq::<u8>::empty());
        assert(p0 == s.len());
    }
    assert(section_scan(s, p0, p0, Seq::empty(), false) == (us, s.len() as int));
    assert(sections_from(s, s.len() as int) == (Seq::<Seq<UnitView>>::empty(), s.len() as int));
    assert(sections_from(s, p0 - 1) == (seq![us] + Seq::<Seq<UnitView>>::empty(), s.len() as int));
    assert(seq![us] + Seq::<Seq<UnitView>>::empty() =~= seq![us]);
    assert(edits_from(s, s.len() as int) == Seq::<FileEditView>::empty());
    assert(edits_of(s) =~= seq![FileEditView { path, sections: seq![us] }]);
}

/// Applying edits keeps every file in its place under its name, and leaves
/// a file that no edit names unchanged.
pub proof fn apply_keeps_untargeted_files(
    edits: Seq<FileEditView>,
    files: Seq<(Seq<char>, Seq<char>)>,
    i: int,
)
    requires
        0 <= i < files.len(),
    ensures
        applied(edits, files).len() == files.len(),
        applied(edits, files)[i].0 == files[i].0,
        (forall|j: int| 0 <= j < edits.len() ==> edit_key(#[trigger] edits[j]) != files[i].0)
            ==> applied(edits, files)[i] == files[i],
    decreases edits.len(),
{
    lemma_applied_len(edits, files);
    if edits.len() > 0 {
        let init = edits.drop_last();
        apply_keeps_untargeted_files(init, files, i);
        let e = edits.last();
        lemma_find_from(files, edit_key(e), 0);
        if forall|j: int| 0 <= j < edits.len() ==> edit_key(#[trigger] edits[j]) != files[i].0 {
            assert forall|j: int| 0 <= j < init.len() implies edit_key(#[trigger] init[j])
                != files[i].0 by {
                assert(init[j] == edits[j]);
            }
            assert(edit_key(edits[edits.len() - 1]) != files[i].0);
        }
    }
}


// ---- fields and separators ----

/// The unit separators of a record from `p` on that split fields: US inside
/// a nested scope or after DLE does not count.
pub open spec fn separators_from(r: Seq<u8>, p: int) -> nat
    decreases r.len() - p,
{
    if p < 0 || p >= r.len() {
        0
    } else if r[p] == US {
        separators_from(r, p + 1) + 1
    } else if r[p] == DLE {
        separators_from(r, clamp(p + 2, r.len() as int))
    } else if r[p] == crate::STX {
        let q = crate::scan::nested_end(r, p + 1, 1, r.len() as int);
        if q <= p || q > r.len() {
            0
        } else {
            separators_from(r, q)
        }
    } else {
        separators_from(r, p + 1)
    }
}

proof fn lemma_field_spans_count(r: Seq<u8>, p: int, fs: int)
    ensures
        field_spans(r, p, fs).len() == separators_from(r, p) + 1,
    decreases r.len() - p,
{
    if 0 <= p < r.len() {
        if r[p] == US {
            lemma_field_spans_count(r, p + 1, p + 1);
        } else if r[p] == DLE {
            lemma_field_spans_count(r, clamp(p + 2, r.len() as int), fs);
        } else if r[p] == crate::STX {
            let q = crate::scan::nested_end(r, p + 1, 1, r.len() as int);
            if q > p && q <= r.len() {
                lemma_field_spans_count(r, q, fs);
            }
        } else {
            lemma_field_spans_count(r, p + 1, fs);
        }
    }
}

/// A record with N field separators has N + 1 fields (an empty record has
/// one empty field).
pub proof fn separators_split_fields(r: Seq<u8>)
    ensures
        fields_of(r).len() == separators_from(r, 0) + 1,
{
    lemma_field_spans_count(r, 0, 0);
}

/// A stream buffer is its committed region followed by its tail.
pub proof fn committed_then_tail(s: Seq<u8>)
    ensures
        0 <= committed_end_of(s) <= s.len(),
        s.subrange(0, committed_end_of(s)) + s.subrange(committed_end_of(s), s.len() as int) == s,
{
    lemma_commits_from(s, 0);
    let c = commits_of(s);
    if c.len() > 0 {
        assert(c[c.len() - 1].1 <= s.len());
    }
    let e = committed_end_of(s);
    assert(s.subrange(0, e) + s.subrange(e, s.len() as int) =~= s);
}

/// Appending a record appends its bytes.
pub proof fn lemma_records_bytes_push(rows: Seq<Seq<Seq<u8>>>, x: Seq<Seq<u8>>)
    ensures
        records_bytes(rows.push(x)) == records_bytes(rows) + record_bytes(x),
    decreases rows.len(),
{
    if rows.len() == 0 {
        assert(rows.push(x).drop_first() =~= Seq::<Seq<Seq<u8>>>::empty());
        assert(records_bytes(Seq::<Seq<Seq<u8>>>::empty()) == Seq::<u8>::empty());
        assert(rows.push(x)[0] == x);
        assert(records_bytes(rows.push(x)) =~= record_bytes(x));
    } else {
        lemma_records_bytes_push(rows.drop_first(), x);
        assert(rows.push(x).drop_first() =~= rows.drop_first().push(x));
        assert(records_bytes(rows.push(x)) =~= records_bytes(rows) + record_bytes(x));
    }
}

// ---- documents read back ----

/// No GS and no EOT: bytes that the document index walks over.
pub open spec fn no_group_break(x: Seq<u8>) -> bool {
    forall|k: int| 0 <= k < x.len() ==> #[trigger] x[k] != GS && x[k] != EOT
}

/// No field value of any record holds GS or EOT.
pub open spec fn rows_unbroken(rows: Seq<Seq<Seq<u8>>>) -> bool {
    forall|j: int, k: int|
        0 <= j < rows.len() && 0 <= k < rows[j].len() ==> no_group_break(#[trigger] rows[j][k])
}

proof fn lemma_unbroken_concat(a: Seq<u8>, b: Seq<u8>)
    requires
        no_group_break(a),
        no_group_break(b),
    ensures
        no_group_break(a + b),
{
    assert forall|k: int| 0 <= k < (a + b).len() implies #[trigger] (a + b)[k] != GS && (a + b)[k]
        != EOT by {
        if k < a.len() {
            assert((a + b)[k] == a[k]);
        } else {
            assert((a + b)[k] == b[k - a.len()]);
        }
    }
}

proof fn lemma_unbroken_escape(v: Seq<u8>)
    requires
        no_group_break(v),
    ensures
        no_group_break(escape(v)),
    decreases v.len(),
{
    if v.len() > 0 {
        let b = v.last();
        assert(b == v[v.len() - 1]);
        assert forall|k: int| 0 <= k < v.drop_last().len() implies #[trigger] v.drop_last()[k] != GS
            && v.drop_last()[k] != EOT by {
            assert(v.drop_last()[k] == v[k]);
        }
        lemma_unbroken_escape(v.drop_last());
        let e = escape_byte(b);
        assert forall|k: int| 0 <= k < e.len() implies #[trigger] e[k] != GS && e[k] != EOT by {}
        lemma_unbroken_concat(escape(v.drop_last()), e);
    }
}

proof fn lemma_unbroken_joined(parts: Seq<Seq<u8>>)
    requires
        forall|i: int| 0 <= i < parts.len() ==> no_group_break(#[trigger] parts[i]),
    ensures
        no_group_break(joined(parts)),
    decreases parts.len(),
{
    if parts.len() > 1 {
        let front = parts.drop_last();
        assert forall|i: int| 0 <= i < front.len() implies no_group_break(#[trigger] front[i]) by {
            assert(front[i] == parts[i]);
        }
        lemma_unbroken_joined(front);
        lemma_unbroken_concat(joined(front), seq![US]);
        lemma_unbroken_concat(joined(front) + seq![US], parts.last());
    } else if parts.len() == 1 {
        assert(no_group_break(parts[0]));
    }
}

proof fn lemma_unbroken_records(rows: Seq<Seq<Seq<u8>>>)
    requires
        rows_unbroken(rows),
    ensures
        no_group_break(records_bytes(rows)),
    decreases rows.len(),
{
    if rows.len() > 0 {
        let fs = rows[0];
        let e = escaped_all(fs);
        assert forall|i: int| 0 <= i < e.len() implies no_group_break(#[trigger] e[i]) by {
            assert(no_group_break(rows[0][i]));
            lemma_unbroken_escape(fs[i]);
        }
        lemma_unbroken_joined(e);
        lemma_unbroken_concat(seq![RS], joined(e));
        let rest = rows.drop_first();
        assert forall|j: int, k: int| 0 <= j < rest.len() && 0 <= k < rest[j].len() implies no_group_break(
            #[trigger] rest[j][k],
        ) by {
            assert(rest[j] == rows[j + 1]);
        }
        lemma_unbroken_records(rest);
        lemma_unbroken_concat(record_bytes(fs), records_bytes(rest));
    }
}

proof fn lemma_unbroken_name(n: Seq<u8>)
    requires
        is_name(n),
    ensures
        no_group_break(n),
{
    assert forall|k: int| 0 <= k < n.len() implies #[trigger] n[k] != GS && n[k] != EOT by {
        assert(n[k] >= 0x20);
    }
}

proof fn lemma_groups_from_skip(s: Seq<u8>, p: int, q: int)
    requires
        0 <= p <= q <= s.len(),
        forall|k: int| p <= k < q ==> #[trigger] s[k] != GS && s[k] != EOT,
    ensures
        groups_from(s, p) == groups_from(s, q),
    decreases q - p,
{
    if p < q {
        lemma_groups_from_skip(s, p + 1, q);
    }
}

/// The table a group is written as: its name, the header names it declares
/// and its raw records.
pub open spec fn group_table(g: GroupSpec) -> TableView {
    TableView { name: g.name, headers: declared_headers(g.headers), records: raw_rows(g.rows) }
}

/// A group of a document as the builder writes it, that the document index
/// finds again: a name, header names, and field values free of GS and EOT
/// (the index does not look at escapes).
pub open spec fn group_indexed(g: GroupSpec) -> bool {
    &&& is_name(g.name)
    &&& names_ok(g.headers)
    &&& rows_unbroken(g.rows)
}

proof fn lemma_groups_walk(s: Seq<u8>, p: int, groups: Seq<GroupSpec>)
    requires
        occurs_at(s, p, groups_bytes(groups)),
        p + groups_bytes(groups).len() == s.len(),
        forall|i: int| 0 <= i < groups.len() ==> group_indexed(#[trigger] groups[i]),
        forall|i: int| 0 <= i < groups.len() - 1 ==> opens_line(#[trigger] groups[i]),
    ensures
        groups_from(s, p).len() == groups.len(),
        forall|i: int|
            0 <= i < groups.len() ==> s.subrange(groups_from(s, p)[i].1, groups_from(s, p)[i].2)
                == #[trigger] groups[i].name,
        forall|i: int|
            0 <= i < groups.len() && valid_headers(#[trigger] groups[i].headers) ==> table_at(
                s,
                groups_from(s, p)[i].0,
            ) == group_table(groups[i]),
    decreases groups.len(),
{
    if groups.len() == 0 {
        assert(groups_from(s, p) == Seq::<(int, int, int)>::empty());
    } else {
        let g = groups[0];
        assert(group_indexed(g));
        let rest = groups.drop_first();
        let t = table_bytes(g.name, g.headers, g.rows);
        let hb = match g.headers {
            Some(h) => header_bytes(h),
            None => Seq::<u8>::empty(),
        };
        let rb = records_bytes(g.rows);
        let n = g.name;
        assert(t =~= seq![GS] + n + (hb + rb));
        lemma_occurs_split(s, p, t, groups_bytes(rest));
        lemma_occurs_split(s, p, seq![GS] + n, hb + rb);
        lemma_occurs_split(s, p, seq![GS], n);
        lemma_occurs_index(s, p, seq![GS], 0);
        let e = p + 1 + n.len();
        lemma_data_run_name(s, p + 1, n);
        if g.rows.len() > 0 {
            assert(rb[0] == RS);
        }
        // the byte after the name is a control byte other than GS, or the
        // next group's GS when the name is not empty, or the end
        if e < s.len() {
            if hb.len() > 0 {
                lemma_occurs_index(s, e, hb + rb, 0);
            } else if rb.len() > 0 {
                assert(hb + rb =~= rb);
                lemma_occurs_index(s, e, hb + rb, 0);
            } else {
                assert(hb + rb =~= Seq::<u8>::empty());
                if rest.len() > 0 {
                    assert(opens_line(groups[0]));
                    let g1 = rest[0];
                    let t1 = table_bytes(g1.name, g1.headers, g1.rows);
                    lemma_occurs_split(s, p + t.len(), t1, groups_bytes(rest.drop_first()));
                    lemma_occurs_index(s, p + t.len(), t1, 0);
                    assert(t1[0] == GS);
                } else {
                    assert(groups_bytes(rest) == Seq::<u8>::empty());
                }
            }
        }
        if n.len() > 0 {
            lemma_occurs_index(s, p + 1, n, 0);
            assert(s[p + 1] >= 0x20);
        }
        assert(gs_run_end(s, p + 1) == p + 1);
        assert(gs_run_end(s, p) == p + 1);
        assert(data_run_end(s, e) == e);
        assert(groups_from(s, p) == seq![(p, p + 1, e)] + groups_from(s, e));
        // header and records hold no GS and no EOT
        match g.headers {
            Some(h) => {
                assert forall|i: int| 0 <= i < h.len() implies no_group_break(#[trigger] h[i]) by {
                    lemma_unbroken_name(h[i]);
                }
                lemma_unbroken_joined(h);
                lemma_unbroken_concat(seq![SOH], joined(h));
            },
            None => {},
        }
        lemma_unbroken_records(g.rows);
        lemma_unbroken_concat(hb, rb);
        assert forall|k: int| e <= k < p + t.len() implies #[trigger] s[k] != GS && s[k] != EOT by {
            lemma_occurs_index(s, e, hb + rb, k - e);
        }
        lemma_groups_from_skip(s, e, p + t.len());
        assert forall|i: int| 0 <= i < rest.len() implies group_indexed(#[trigger] rest[i]) by {
            assert(rest[i] == groups[i + 1]);
        }
        assert forall|i: int| 0 <= i < rest.len() - 1 implies opens_line(#[trigger] rest[i]) by {
            assert(rest[i] == groups[i + 1]);
        }
        lemma_groups_walk(s, p + t.len(), rest);
        let gf = groups_from(s, p);
        if valid_headers(g.headers) {
            if rest.len() > 0 {
                let g1 = rest[0];
                let t1 = table_bytes(g1.name, g1.headers, g1.rows);
                lemma_occurs_split(s, p + t.len(), t1, groups_bytes(rest.drop_first()));
                lemma_occurs_index(s, p + t.len(), t1, 0);
                assert(t1[0] == GS);
            } else {
                assert(groups_bytes(rest) == Seq::<u8>::empty());
            }
            lemma_table_at(s, p, g.name, g.headers, g.rows);
            assert(table_at(s, p) =~= group_table(g));
        }
        assert forall|i: int|
            0 <= i < groups.len() && valid_headers(#[trigger] groups[i].headers) implies table_at(
            s,
            gf[i].0,
        ) == group_table(groups[i]) by {
            if i > 0 {
                assert(gf[i] == groups_from(s, p + t.len())[i - 1]);
                assert(groups[i] == rest[i - 1]);
            }
        }
        assert forall|i: int| 0 <= i < groups.len() implies s.subrange(gf[i].1, gf[i].2)
            == #[trigger] groups[i].name by {
            if i == 0 {
                assert(s.subrange(p + 1, e) =~= n);
            } else {
                assert(gf[i] == groups_from(s, p + t.len())[i - 1]);
                assert(groups[i] == rest[i - 1]);
            }
        }
    }
}

/// A document the builder writes reads back through the document index:
/// its file name, and one top-level group for each group written, in order,
/// with the name it was written with and, where its header (if any) names
/// at least one field, the table it was written as; when no field holds GS
/// or EOT and every group but the last has a name, a header or records.
pub proof fn document_reads_back(file: Option<Seq<u8>>, groups: Seq<GroupSpec>)
    requires
        file matches Some(f) ==> is_name(f),
        forall|i: int| 0 <= i < groups.len() ==> group_indexed(#[trigger] groups[i]),
        forall|i: int| 0 <= i < groups.len() - 1 ==> opens_line(#[trigger] groups[i]),
    ensures
        document_of(document_bytes(file, groups)).name == match file {
            Some(f) => f,
            None => Seq::<u8>::empty(),
        },
        document_of(document_bytes(file, groups)).group_names == Seq::new(
            groups.len(),
            |i: int| groups[i].name,
        ),
        document_of(document_bytes(file, groups)).groups.len() == groups.len(),
        forall|i: int|
            0 <= i < groups.len() && valid_headers(#[trigger] groups[i].headers) ==> table_at(
                document_bytes(file, groups),
                document_of(document_bytes(file, groups)).groups[i].0,
            ) == group_table(groups[i]),
{
    let s = document_bytes(file, groups);
    let gb = groups_bytes(groups);
    assert(s.subrange(0, s.len() as int) =~= s);
    let p: int = match file {
        Some(f) => 1 + f.len() as int,
        None => 0,
    };
    match file {
        Some(f) => {
            lemma_occurs_split(s, 0, seq![FS] + f, gb);
            lemma_occurs_split(s, 0, seq![FS], f);
            lemma_occurs_index(s, 0, seq![FS], 0);
            lemma_data_run_name(s, 1, f);
            if p < s.len() {
                let g0 = groups[0];
                let t0 = table_bytes(g0.name, g0.headers, g0.rows);
                lemma_occurs_split(s, p, t0, groups_bytes(groups.drop_first()));
                lemma_occurs_index(s, p, t0, 0);
                assert(t0[0] == GS);
            } else {
                assert(gb.len() == 0);
            }
            assert(data_run_end(s, p) == p);
            assert(body_start(s) == p);
            assert(s.subrange(1, p) =~= f);
        },
        None => {
            if s.len() > 0 {
                let g0 = groups[0];
                let t0 = table_bytes(g0.name, g0.headers, g0.rows);
                lemma_occurs_split(s, 0, t0, groups_bytes(groups.drop_first()));
                lemma_occurs_index(s, 0, t0, 0);
                assert(t0[0] == GS);
            }
            assert(body_start(s) == 0);
        },
    }
    lemma_groups_walk(s, p, groups);
    let d = document_of(s);
    assert(d.group_names =~= Seq::new(groups.len(), |i: int| groups[i].name));
}

/// The sections of one file edit are applied in sequence: applying `a`
/// then `b` is applying `a + b`.
pub proof fn sections_apply_in_sequence(content: Seq<char>, a: Seq<Seq<UnitView>>, b: Seq<Seq<UnitView>>)
    ensures
        apply_sections(content, a + b) == apply_sections(apply_sections(content, a), b),
    decreases b.len(),
{
    if b.len() == 0 {
        assert(a + b =~= a);
    } else {
        assert((a + b).drop_last() =~= a + b.drop_last());
        assert((a + b).last() == b.last());
        sections_apply_in_sequence(content, a, b.drop_last());
    }
}

/// An edit of one file with two sections rewrites the file by the first
/// section, then rewrites that result by the second.
pub proof fn two_sections_apply_one_after_the_other(
    e: FileEditView,
    files: Seq<(Seq<char>, Seq<char>)>,
)
    requires
        e.sections.len() == 2,
        find_from(files, edit_key(e), 0) >= 0,
    ensures
        ({
            let idx = find_from(files, edit_key(e), 0);
            applied(seq![e], files)[idx].1 == apply_section(
                apply_section(files[idx].1, e.sections[0]),
                e.sections[1],
            )
        }),
{
    let idx = find_from(files, edit_key(e), 0);
    lemma_find_from(files, edit_key(e), 0);
    let secs = e.sections;
    assert(seq![e].drop_last() =~= Seq::<FileEditView>::empty());
    assert(applied(Seq::<FileEditView>::empty(), files) == files);
    assert(secs.drop_last() =~= seq![secs[0]]);
    assert(seq![secs[0]].drop_last() =~= Seq::<Seq<UnitView>>::empty());
    assert(seq![secs[0]].last() == secs[0]);
    assert(apply_sections(files[idx].1, Seq::<Seq<UnitView>>::empty()) == files[idx].1);
    assert(apply_sections(files[idx].1, seq![secs[0]]) == apply_section(files[idx].1, secs[0]));
    assert(secs.last() == secs[1]);
}

} // verus!
