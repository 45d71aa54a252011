//! CSV text and C0DATA: [`from_csv`] writes the rows of a CSV text as one
//! group, [`to_csv`] writes the first table of a buffer as CSV text.
//!
//! The CSV grammar is the small RFC 4180 subset: comma-separated fields,
//! `"`-quoted fields with doubled quotes inside, CR ignored, LF ending a row.
//! Every delimiter is ASCII, and an ASCII byte never occurs inside the UTF-8
//! encoding of another character, so the text is read byte by byte.

use vstd::prelude::*;

use std::borrow::Cow;

use vstd::string::StringSliceAdditionalSpecFns;
use vstd::utf8::{decode_utf8, valid_utf8};

use crate::builder::{escape, escaped_all, group_bytes, is_name, joined, lemma_escape_step, lemma_joined_step};
use crate::document::{document_of, Document};
use crate::properties::{lemma_records_bytes_push, records_bytes};
use crate::table::{field_of, fields_of, table_at, Table, TableView};
use crate::text::{bytes_to_string, utf8_lossy};
use crate::{unescaped, FS, GS, RS, SOH, US};

verus! {

/// The quote that encloses a CSV field.
pub const QUOTE: u8 = 0x22;

/// The CSV field separator.
pub const COMMA: u8 = 0x2c;

/// The CSV row terminator.
pub const LF: u8 = 0x0a;

/// Carriage return, ignored outside quotes.
pub const CR: u8 = 0x0d;

/// Where the CSV reader stands: the rows read so far, the fields of the
/// current row, the current field, whether it is inside quotes, and whether
/// the current row has seen any byte.
pub struct CsvState {
    pub rows: Seq<Seq<Seq<u8>>>,
    pub row: Seq<Seq<u8>>,
    pub field: Seq<u8>,
    pub quoted: bool,
    pub started: bool,
}

/// The rows at the end of the text: a pending row is kept when it has seen
/// any byte.
pub open spec fn csv_finish(st: CsvState) -> Seq<Seq<Seq<u8>>> {
    if st.started || st.field.len() > 0 || st.row.len() > 0 {
        st.rows.push(st.row.push(st.field))
    } else {
        st.rows
    }
}

/// The rows of `s` read from `i` on, in state `st`.
pub open spec fn csv_from(s: Seq<u8>, i: int, st: CsvState) -> Seq<Seq<Seq<u8>>>
    decreases s.len() - i,
{
    if i < 0 || i >= s.len() {
        csv_finish(st)
    } else {
        let c = s[i];
        if st.quoted {
            if c == QUOTE && i + 1 < s.len() && s[i + 1] == QUOTE {
                csv_from(
                    s,
                    i + 2,
                    CsvState { rows: st.rows, row: st.row, field: st.field.push(QUOTE), quoted: true, started: true },
                )
            } else if c == QUOTE {
                csv_from(
                    s,
                    i + 1,
                    CsvState { rows: st.rows, row: st.row, field: st.field, quoted: false, started: true },
                )
            } else {
                csv_from(
                    s,
                    i + 1,
                    CsvState { rows: st.rows, row: st.row, field: st.field.push(c), quoted: true, started: true },
                )
            }
        } else if c == QUOTE {
            csv_from(
                s,
                i + 1,
                CsvState { rows: st.rows, row: st.row, field: st.field, quoted: true, started: true },
            )
        } else if c == COMMA {
            csv_from(
                s,
                i + 1,
                CsvState {
                    rows: st.rows,
                    row: st.row.push(st.field),
                    field: Seq::empty(),
                    quoted: false,
                    started: true,
                },
            )
        } else if c == LF {
            csv_from(
                s,
                i + 1,
                CsvState {
                    rows: st.rows.push(st.row.push(st.field)),
                    row: Seq::empty(),
                    field: Seq::empty(),
                    quoted: false,
                    started: false,
                },
            )
        } else if c == CR {
            csv_from(
                s,
                i + 1,
                CsvState { rows: st.rows, row: st.row, field: st.field, quoted: false, started: true },
            )
        } else {
            csv_from(
                s,
                i + 1,
                CsvState { rows: st.rows, row: st.row, field: st.field.push(c), quoted: false, started: true },
            )
        }
    }
}

/// The rows of a CSV text, each a sequence of field values.
pub open spec fn csv_rows(s: Seq<u8>) -> Seq<Seq<Seq<u8>>> {
    csv_from(
        s,
        0,
        CsvState { rows: Seq::empty(), row: Seq::empty(), field: Seq::empty(), quoted: false, started: false },
    )
}

/// The pieces of `x` between its commas, in order: one more piece than
/// commas, a piece empty where two commas meet.
pub open spec fn comma_split(x: Seq<u8>) -> Seq<Seq<u8>>
    decreases x.len(),
{
    if x.len() == 0 {
        seq![Seq::empty()]
    } else {
        let p = comma_split(x.drop_last());
        if x.last() == COMMA {
            p.push(Seq::empty())
        } else {
            p.update(p.len() - 1, p.last().push(x.last()))
        }
    }
}

/// How many commas `x` holds.
pub open spec fn comma_count(x: Seq<u8>) -> nat
    decreases x.len(),
{
    if x.len() == 0 {
        0
    } else {
        comma_count(x.drop_last()) + if x.last() == COMMA {
            1nat
        } else {
            0nat
        }
    }
}

/// No comma in `x`.
pub open spec fn comma_free(x: Seq<u8>) -> bool {
    forall|k: int| 0 <= k < x.len() ==> #[trigger] x[k] != COMMA
}

/// A line of CSV text: no quote, no line break.
pub open spec fn plain_csv_line(x: Seq<u8>) -> bool {
    forall|k: int| 0 <= k < x.len() ==> #[trigger] x[k] != QUOTE && x[k] != LF && x[k] != CR
}

/// The comma split of a text is a split at its commas: the pieces hold no
/// comma, joined with commas they give the text back, and there is one
/// more piece than commas.
pub proof fn comma_split_splits(x: Seq<u8>)
    ensures
        comma_split(x).len() == comma_count(x) + 1,
        comma_joined(comma_split(x)) == x,
        forall|i: int| 0 <= i < comma_split(x).len() ==> comma_free(#[trigger] comma_split(x)[i]),
    decreases x.len(),
{
    if x.len() == 0 {
        assert(comma_split(x) =~= seq![Seq::<u8>::empty()]);
        assert(comma_free(Seq::<u8>::empty()));
        assert(comma_joined(seq![Seq::<u8>::empty()]) == Seq::<u8>::empty());
    } else {
        let y = x.drop_last();
        let c = x.last();
        comma_split_splits(y);
        let p = comma_split(y);
        let q = comma_split(x);
        if c == COMMA {
            assert(q == p.push(Seq::empty()));
            assert(q.drop_last() =~= p);
            assert(q.last() == Seq::<u8>::empty());
            assert(comma_joined(q) == comma_joined(p) + seq![COMMA] + Seq::<u8>::empty());
            assert(comma_joined(q) =~= x);
            assert forall|i: int| 0 <= i < q.len() implies comma_free(#[trigger] q[i]) by {
                if i < p.len() {
                    assert(q[i] == p[i]);
                } else {
                    assert(q[i] == Seq::<u8>::empty());
                }
            }
        } else {
            let n = p.len() - 1;
            assert(q == p.update(n, p.last().push(c)));
            assert forall|i: int| 0 <= i < q.len() implies comma_free(#[trigger] q[i]) by {
                if i < n {
                    assert(q[i] == p[i]);
                } else {
                    assert(q[i] == p[n].push(c));
                    assert(comma_free(p[n]));
                    assert forall|k: int| 0 <= k < q[i].len() implies #[trigger] q[i][k] != COMMA by {
                        if k < p[n].len() {
                            assert(q[i][k] == p[n][k]);
                        }
                    }
                }
            }
            if p.len() == 1 {
                assert(comma_joined(q) == q[0]);
                assert(comma_joined(p) == p[0]);
                assert(comma_joined(q) =~= x);
            } else {
                assert(q.drop_last() =~= p.drop_last());
                assert(q.last() == q[n]);
                assert(q[n] == p.last().push(c));
                assert(comma_joined(q) == comma_joined(q.drop_last()) + seq![COMMA] + q.last());
                assert(comma_joined(q) == comma_joined(p.drop_last()) + seq![COMMA] + p.last().push(c));
                assert(comma_joined(p) == comma_joined(p.drop_last()) + seq![COMMA] + p.last());
                assert(comma_joined(q) =~= comma_joined(p).push(c));
                assert(y.push(c) =~= x);
            }
        }
    }
}

proof fn lemma_comma_split_free(f: Seq<u8>)
    requires
        comma_free(f),
    ensures
        comma_split(f) == seq![f],
    decreases f.len(),
{
    if f.len() == 0 {
        assert(f =~= Seq::<u8>::empty());
        assert(comma_split(f) =~= seq![f]);
    } else {
        let y = f.drop_last();
        assert(comma_free(y)) by {
            assert forall|k: int| 0 <= k < y.len() implies #[trigger] y[k] != COMMA by {
                assert(y[k] == f[k]);
            }
        }
        lemma_comma_split_free(y);
        assert(f.last() == f[f.len() - 1]);
        let p = comma_split(y);
        assert(p.len() == 1 && p.last() == y);
        assert(comma_split(f) == p.update(0, y.push(f.last())));
        assert(y.push(f.last()) =~= f);
        assert(comma_split(f) =~= seq![f]);
    }
}

proof fn lemma_comma_split_front(f: Seq<u8>, y: Seq<u8>)
    requires
        comma_free(f),
    ensures
        comma_split(f + seq![COMMA] + y) == seq![f] + comma_split(y),
    decreases y.len(),
{
    let x = f + seq![COMMA] + y;
    if y.len() == 0 {
        assert(x.drop_last() =~= f);
        assert(x.last() == COMMA);
        lemma_comma_split_free(f);
        assert(comma_split(y) =~= seq![Seq::<u8>::empty()]);
        assert(comma_split(x) =~= seq![f] + comma_split(y));
    } else {
        assert(x.drop_last() =~= f + seq![COMMA] + y.drop_last());
        assert(x.last() == y.last());
        lemma_comma_split_front(f, y.drop_last());
        comma_split_splits(y.drop_last());
        let p = comma_split(y.drop_last());
        if y.last() == COMMA {
            assert(comma_split(x) =~= seq![f] + comma_split(y));
        } else {
            assert((seq![f] + p).last() == p.last());
            assert(comma_split(x) =~= seq![f] + comma_split(y));
        }
    }
}

proof fn lemma_csv_line(s: Seq<u8>, line: Seq<u8>, i: int, st: CsvState)
    requires
        plain_csv_line(line),
        s == line.push(LF),
        0 <= i <= line.len(),
        st.rows == Seq::<Seq<Seq<u8>>>::empty(),
        !st.quoted,
        comma_free(st.field),
    ensures
        csv_from(s, i, st) == seq![st.row + comma_split(st.field + line.subrange(i, line.len() as int))],
    decreases line.len() - i,
{
    let n = line.len() as int;
    if i == n {
        assert(s[i] == LF);
        assert(st.field + line.subrange(i, n) =~= st.field);
        lemma_comma_split_free(st.field);
        assert(st.row + seq![st.field] =~= st.row.push(st.field));
        let st2 = CsvState {
            rows: st.rows.push(st.row.push(st.field)),
            row: Seq::empty(),
            field: Seq::empty(),
            quoted: false,
            started: false,
        };
        assert(csv_from(s, i, st) == csv_from(s, i + 1, st2));
        assert(csv_from(s, i + 1, st2) == csv_finish(st2));
        assert(csv_finish(st2) == st2.rows);
        assert(st2.rows =~= seq![st.row.push(st.field)]);
    } else {
        let c = line[i];
        assert(s[i] == c);
        assert(c != QUOTE && c != LF && c != CR);
        if c == COMMA {
            let st2 = CsvState {
                rows: st.rows,
                row: st.row.push(st.field),
                field: Seq::empty(),
                quoted: false,
                started: true,
            };
            lemma_csv_line(s, line, i + 1, st2);
            let y = line.subrange(i + 1, n);
            assert(st.field + line.subrange(i, n) =~= st.field + seq![COMMA] + y);
            lemma_comma_split_front(st.field, y);
            assert(Seq::<u8>::empty() + y =~= y);
            assert(st.row + (seq![st.field] + comma_split(y)) =~= st.row.push(st.field) + comma_split(y));
        } else {
            let f2 = st.field.push(c);
            assert(comma_free(f2)) by {
                assert forall|k: int| 0 <= k < f2.len() implies #[trigger] f2[k] != COMMA by {
                    if k < st.field.len() {
                        assert(f2[k] == st.field[k]);
                    }
                }
            }
            let st2 = CsvState { rows: st.rows, row: st.row, field: f2, quoted: false, started: true };
            lemma_csv_line(s, line, i + 1, st2);
            assert(f2 + line.subrange(i + 1, n) =~= st.field + line.subrange(i, n));
        }
    }
}

/// A CSV line without quotes reads as one row whose fields are the pieces
/// of the line between its commas: every comma ends a field, empty or not,
/// so the fields joined with commas give the line back, and there is one
/// more field than commas.
pub proof fn csv_line_splits_at_commas(line: Seq<u8>)
    requires
        plain_csv_line(line),
    ensures
        csv_rows(line.push(LF)) == seq![comma_split(line)],
        csv_rows(line.push(LF))[0].len() == comma_count(line) + 1,
        comma_joined(csv_rows(line.push(LF))[0]) == line,
        forall|i: int|
            0 <= i < csv_rows(line.push(LF))[0].len() ==> comma_free(#[trigger] csv_rows(line.push(LF))[0][i]),
{
    let st = CsvState { rows: Seq::empty(), row: Seq::empty(), field: Seq::empty(), quoted: false, started: false };
    assert(comma_free(Seq::<u8>::empty()));
    lemma_csv_line(line.push(LF), line, 0, st);
    assert(Seq::<u8>::empty() + line.subrange(0, line.len() as int) =~= line);
    assert(Seq::<Seq<u8>>::empty() + comma_split(line) =~= comma_split(line));
    comma_split_splits(line);
}

// Text without special bytes is read into the current field as it is.
proof fn lemma_plain_walk(s: Seq<u8>, i: int, f: Seq<u8>, st: CsvState)
    requires
        0 <= i,
        i + f.len() <= s.len(),
        s.subrange(i, i + f.len()) == f,
        forall|k: int| 0 <= k < f.len() ==> !csv_special(#[trigger] f[k]),
        !st.quoted,
    ensures
        csv_from(s, i, st) == csv_from(
            s,
            i + f.len(),
            CsvState {
                rows: st.rows,
                row: st.row,
                field: st.field + f,
                quoted: false,
                started: st.started || f.len() > 0,
            },
        ),
    decreases f.len(),
{
    if f.len() == 0 {
        assert(st.field + f =~= st.field);
    } else {
        let c = f[0];
        assert(s[i] == s.subrange(i, i + f.len())[0]);
        assert(!csv_special(c));
        let st2 = CsvState { rows: st.rows, row: st.row, field: st.field.push(c), quoted: false, started: true };
        let r = f.drop_first();
        assert(s.subrange(i + 1, i + 1 + r.len()) =~= r) by {
            assert forall|k: int| 0 <= k < r.len() implies s.subrange(i + 1, i + 1 + r.len())[k] == r[k] by {
                assert(s.subrange(i, i + f.len())[k + 1] == f[k + 1]);
            }
        }
        assert forall|k: int| 0 <= k < r.len() implies !csv_special(#[trigger] r[k]) by {
            assert(r[k] == f[k + 1]);
        }
        lemma_plain_walk(s, i + 1, r, st2);
        assert(st.field.push(c) + r =~= st.field + f);
    }
}

proof fn lemma_doubled_front(c: u8, r: Seq<u8>)
    ensures
        doubled_quotes(seq![c] + r) == (if c == QUOTE {
            seq![QUOTE, QUOTE]
        } else {
            seq![c]
        }) + doubled_quotes(r),
    decreases r.len(),
{
    let w = seq![c] + r;
    if r.len() == 0 {
        assert(w.drop_last() =~= Seq::<u8>::empty());
        assert(w.last() == c);
        assert(doubled_quotes(Seq::<u8>::empty()) == Seq::<u8>::empty());
        assert(doubled_quotes(w) =~= (if c == QUOTE {
            seq![QUOTE, QUOTE]
        } else {
            seq![c]
        }) + doubled_quotes(r));
    } else {
        assert(w.drop_last() =~= seq![c] + r.drop_last());
        assert(w.last() == r.last());
        lemma_doubled_front(c, r.drop_last());
        assert(doubled_quotes(w) =~= (if c == QUOTE {
            seq![QUOTE, QUOTE]
        } else {
            seq![c]
        }) + doubled_quotes(r));
    }
}

// Inside quotes, a doubled quote reads as one quote and every other byte as
// itself, up to the closing quote.
proof fn lemma_quoted_walk(s: Seq<u8>, i: int, f: Seq<u8>, st: CsvState)
    requires
        0 <= i,
        i + doubled_quotes(f).len() < s.len(),
        s.subrange(i, i + doubled_quotes(f).len()) == doubled_quotes(f),
        s[i + doubled_quotes(f).len()] == QUOTE,
        i + doubled_quotes(f).len() + 1 == s.len() || s[i + doubled_quotes(f).len() + 1] != QUOTE,
        st.quoted,
        st.started,
    ensures
        csv_from(s, i, st) == csv_from(
            s,
            i + doubled_quotes(f).len(),
            CsvState { rows: st.rows, row: st.row, field: st.field + f, quoted: true, started: true },
        ),
    decreases f.len(),
{
    if f.len() == 0 {
        assert(st.field + f =~= st.field);
    } else {
        let c = f[0];
        let r = f.drop_first();
        assert(f =~= seq![c] + r);
        lemma_doubled_front(c, r);
        let d = doubled_quotes(f);
        let h: int = if c == QUOTE {
            2
        } else {
            1
        };
        assert(s[i] == s.subrange(i, i + d.len())[0]);
        assert(s.subrange(i + h, i + h + doubled_quotes(r).len()) =~= doubled_quotes(r)) by {
            assert forall|k: int| 0 <= k < doubled_quotes(r).len() implies s.subrange(
                i + h,
                i + h + doubled_quotes(r).len(),
            )[k] == doubled_quotes(r)[k] by {
                assert(s.subrange(i, i + d.len())[h + k] == d[h + k]);
            }
        }
        let st2 = CsvState { rows: st.rows, row: st.row, field: st.field.push(c), quoted: true, started: true };
        if c == QUOTE {
            assert(s[i + 1] == s.subrange(i, i + d.len())[1]);
            assert(csv_from(s, i, st) == csv_from(s, i + 2, st2));
        } else {
            assert(csv_from(s, i, st) == csv_from(s, i + 1, st2));
        }
        lemma_quoted_walk(s, i + h, r, st2);
        assert(st.field.push(c) + r =~= st.field + f);
    }
}

// A field as the writer quotes it, then the comma or line break after it,
// reads as that field.
proof fn lemma_field_walk(s: Seq<u8>, i: int, f: Seq<u8>, st: CsvState)
    requires
        0 <= i,
        i + csv_quoted(f).len() < s.len(),
        s.subrange(i, i + csv_quoted(f).len()) == csv_quoted(f),
        s[i + csv_quoted(f).len()] == COMMA || s[i + csv_quoted(f).len()] == LF,
        !st.quoted,
        st.field == Seq::<u8>::empty(),
    ensures
        s[i + csv_quoted(f).len()] == COMMA ==> csv_from(s, i, st) == csv_from(
            s,
            i + csv_quoted(f).len() + 1,
            CsvState { rows: st.rows, row: st.row.push(f), field: Seq::empty(), quoted: false, started: true },
        ),
        s[i + csv_quoted(f).len()] == LF ==> csv_from(s, i, st) == csv_from(
            s,
            i + csv_quoted(f).len() + 1,
            CsvState {
                rows: st.rows.push(st.row.push(f)),
                row: Seq::empty(),
                field: Seq::empty(),
                quoted: false,
                started: false,
            },
        ),
{
    let q = csv_quoted(f);
    let e = i + q.len();
    if needs_quotes(f) {
        let d = doubled_quotes(f);
        assert(q == seq![QUOTE] + d + seq![QUOTE]);
        assert(s[i] == s.subrange(i, e)[0]);
        let st1 = CsvState { rows: st.rows, row: st.row, field: st.field, quoted: true, started: true };
        assert(csv_from(s, i, st) == csv_from(s, i + 1, st1));
        assert(s.subrange(i + 1, i + 1 + d.len()) =~= d) by {
            assert forall|k: int| 0 <= k < d.len() implies s.subrange(i + 1, i + 1 + d.len())[k] == d[k] by {
                assert(s.subrange(i, e)[1 + k] == q[1 + k]);
            }
        }
        assert(s[e - 1] == s.subrange(i, e)[q.len() - 1]);
        lemma_quoted_walk(s, i + 1, f, st1);
        let st2 = CsvState { rows: st.rows, row: st.row, field: st.field + f, quoted: true, started: true };
        let st3 = CsvState { rows: st.rows, row: st.row, field: st.field + f, quoted: false, started: true };
        assert(csv_from(s, e - 1, st2) == csv_from(s, e, st3));
        assert(st.field + f =~= f);
    } else {
        assert(q == f);
        assert forall|k: int| 0 <= k < f.len() implies !csv_special(#[trigger] f[k]) by {
            if csv_special(f[k]) {
                assert(needs_quotes(f));
            }
        }
        lemma_plain_walk(s, i, f, st);
        assert(st.field + f =~= f);
    }
}

/// Each field as the writer quotes it.
pub open spec fn quoted_parts(fs: Seq<Seq<u8>>) -> Seq<Seq<u8>> {
    Seq::new(fs.len(), |k: int| csv_quoted(fs[k]))
}

proof fn lemma_comma_joined_front(a: Seq<u8>, r: Seq<Seq<u8>>)
    requires
        r.len() > 0,
    ensures
        comma_joined(seq![a] + r) == a + seq![COMMA] + comma_joined(r),
    decreases r.len(),
{
    let w = seq![a] + r;
    assert(w[0] == a);
    if r.len() == 1 {
        assert(w.drop_last() =~= seq![a]);
        assert(comma_joined(seq![a]) == a);
        assert(w.last() == r[0]);
        assert(comma_joined(r) == r[0]);
    } else {
        assert(w.drop_last() =~= seq![a] + r.drop_last());
        lemma_comma_joined_front(a, r.drop_last());
        assert(w.last() == r.last());
        assert(comma_joined(w) =~= a + seq![COMMA] + comma_joined(r));
    }
}

proof fn lemma_fields_walk(s: Seq<u8>, i: int, fs: Seq<Seq<u8>>, st: CsvState)
    requires
        fs.len() > 0,
        0 <= i,
        i + comma_joined(quoted_parts(fs)).len() < s.len(),
        s.subrange(i, i + comma_joined(quoted_parts(fs)).len()) == comma_joined(quoted_parts(fs)),
        s[i + comma_joined(quoted_parts(fs)).len()] == LF,
        !st.quoted,
        st.field == Seq::<u8>::empty(),
    ensures
        csv_from(s, i, st) == csv_from(
            s,
            i + comma_joined(quoted_parts(fs)).len() + 1,
            CsvState {
                rows: st.rows.push(st.row + fs),
                row: Seq::empty(),
                field: Seq::empty(),
                quoted: false,
                started: false,
            },
        ),
    decreases fs.len(),
{
    let parts = quoted_parts(fs);
    let j = comma_joined(parts);
    let f0 = fs[0];
    let q0 = csv_quoted(f0);
    if fs.len() == 1 {
        assert(j == parts[0]);
        lemma_field_walk(s, i, f0, st);
        assert(st.row.push(f0) =~= st.row + fs);
    } else {
        let fr = fs.drop_first();
        assert(parts =~= seq![q0] + quoted_parts(fr));
        lemma_comma_joined_front(q0, quoted_parts(fr));
        let jr = comma_joined(quoted_parts(fr));
        assert(j == q0 + seq![COMMA] + jr);
        assert(s.subrange(i, i + q0.len()) =~= q0) by {
            assert forall|k: int| 0 <= k < q0.len() implies s.subrange(i, i + q0.len())[k] == q0[k] by {
                assert(s.subrange(i, i + j.len())[k] == j[k]);
            }
        }
        assert(s[i + q0.len()] == s.subrange(i, i + j.len())[q0.len() as int]);
        lemma_field_walk(s, i, f0, st);
        let st2 = CsvState { rows: st.rows, row: st.row.push(f0), field: Seq::empty(), quoted: false, started: true };
        let i2 = i + q0.len() + 1;
        assert(s.subrange(i2, i2 + jr.len()) =~= jr) by {
            assert forall|k: int| 0 <= k < jr.len() implies s.subrange(i2, i2 + jr.len())[k] == jr[k] by {
                assert(s.subrange(i, i + j.len())[q0.len() + 1 + k] == j[q0.len() + 1 + k]);
            }
        }
        lemma_fields_walk(s, i2, fr, st2);
        assert(st.row.push(f0) + fr =~= st.row + fs);
    }
}

proof fn lemma_lines_walk(s: Seq<u8>, rows: Seq<Seq<Seq<u8>>>)
    requires
        forall|k: int| 0 <= k < rows.len() ==> (#[trigger] rows[k]).len() > 0,
        csv_value_lines(rows).len() <= s.len(),
        s.subrange(0, csv_value_lines(rows).len() as int) == csv_value_lines(rows),
    ensures
        csv_rows(s) == csv_from(
            s,
            csv_value_lines(rows).len() as int,
            CsvState { rows: rows, row: Seq::empty(), field: Seq::empty(), quoted: false, started: false },
        ),
    decreases rows.len(),
{
    if rows.len() == 0 {
        assert(csv_value_lines(rows) == Seq::<u8>::empty());
        assert(rows =~= Seq::<Seq<Seq<u8>>>::empty());
    } else {
        let init = rows.drop_last();
        let fs = rows.last();
        let vi = csv_value_lines(init);
        let line = csv_line(fs);
        assert(csv_value_lines(rows) == vi + line);
        assert(s.subrange(0, vi.len() as int) =~= vi) by {
            assert forall|k: int| 0 <= k < vi.len() implies s.subrange(0, vi.len() as int)[k] == vi[k] by {
                assert(s.subrange(0, csv_value_lines(rows).len() as int)[k] == (vi + line)[k]);
            }
        }
        assert forall|k: int| 0 <= k < init.len() implies (#[trigger] init[k]).len() > 0 by {
            assert(init[k] == rows[k]);
        }
        lemma_lines_walk(s, init);
        let j = comma_joined(quoted_parts(fs));
        assert(line == j + seq![LF]);
        let i = vi.len() as int;
        assert(s.subrange(i, i + j.len()) =~= j) by {
            assert forall|k: int| 0 <= k < j.len() implies s.subrange(i, i + j.len())[k] == j[k] by {
                assert(s.subrange(0, csv_value_lines(rows).len() as int)[i + k] == (vi + line)[i + k]);
            }
        }
        assert(s[i + j.len()] == s.subrange(0, csv_value_lines(rows).len() as int)[i + j.len()]);
        assert(rows.last() == rows[rows.len() - 1]);
        let st = CsvState { rows: init, row: Seq::empty(), field: Seq::empty(), quoted: false, started: false };
        lemma_fields_walk(s, i, fs, st);
        assert(Seq::<Seq<u8>>::empty() + fs =~= fs);
        assert(init.push(Seq::<Seq<u8>>::empty() + fs) =~= rows);
        assert(i + j.len() + 1 == csv_value_lines(rows).len());
    }
}

/// What the CSV writer makes of rows of fields reads back as those rows,
/// whatever the fields hold (commas, quotes, line breaks are quoted), as
/// long as every row has a field.
pub proof fn csv_text_round_trips(rows: Seq<Seq<Seq<u8>>>)
    requires
        forall|k: int| 0 <= k < rows.len() ==> (#[trigger] rows[k]).len() > 0,
    ensures
        csv_rows(csv_value_lines(rows)) == rows,
{
    let s = csv_value_lines(rows);
    assert(s.subrange(0, s.len() as int) =~= s);
    lemma_lines_walk(s, rows);
    let st = CsvState { rows: rows, row: Seq::empty(), field: Seq::empty(), quoted: false, started: false };
    assert(csv_from(s, s.len() as int, st) == csv_finish(st));
}

/// The values of a row of byte vectors.
pub open spec fn row_view(r: Seq<Vec<u8>>) -> Seq<Seq<u8>> {
    Seq::new(r.len(), |i: int| r[i]@)
}

/// The values of rows of byte vectors.
pub open spec fn rows_view(rows: Seq<Vec<Vec<u8>>>) -> Seq<Seq<Seq<u8>>> {
    Seq::new(rows.len(), |i: int| row_view(rows[i]@))
}

// The rows of a CSV text.
fn parse_csv(input: &str) -> (r: Vec<Vec<Vec<u8>>>)
    ensures
        rows_view(r@) == csv_rows(input.spec_bytes()),
{
    let bytes = input.as_bytes();
    let ghost s = bytes@;
    let n = bytes.len();
    let mut rows: Vec<Vec<Vec<u8>>> = Vec::new();
    let mut row: Vec<Vec<u8>> = Vec::new();
    let mut field: Vec<u8> = Vec::new();
    let mut quoted = false;
    let mut started = false;
    let mut i: usize = 0;
    assert(rows_view(rows@) =~= Seq::<Seq<Seq<u8>>>::empty());
    assert(row_view(row@) =~= Seq::<Seq<u8>>::empty());
    assert(field@ =~= Seq::<u8>::empty());
    while i < n
        invariant
            n == s.len(),
            s == bytes@,
            s == input.spec_bytes(),
            i <= n,
            csv_from(
                s,
                i as int,
                CsvState {
                    rows: rows_view(rows@),
                    row: row_view(row@),
                    field: field@,
                    quoted,
                    started,
                },
            ) == csv_rows(s),
        decreases n - i,
    {
        let c = bytes[i];
        started = true;
        if quoted {
            if c == QUOTE && i + 1 < n && bytes[i + 1] == QUOTE {
                field.push(QUOTE);
                i = i + 2;
            } else if c == QUOTE {
                quoted = false;
                i = i + 1;
            } else {
                field.push(c);
                i = i + 1;
            }
        } else if c == QUOTE {
            quoted = true;
            i = i + 1;
        } else if c == COMMA {
            let ghost before = row_view(row@);
            let ghost f = field@;
            row.push(field);
            field = Vec::new();
            assert(row_view(row@) =~= before.push(f));
            i = i + 1;
        } else if c == LF {
            let ghost before_rows = rows_view(rows@);
            let ghost before = row_view(row@);
            let ghost f = field@;
            row.push(field);
            field = Vec::new();
            assert(row_view(row@) =~= before.push(f));
            let ghost full = row_view(row@);
            rows.push(row);
            row = Vec::new();
            assert(rows_view(rows@) =~= before_rows.push(full));
            assert(row_view(row@) =~= Seq::<Seq<u8>>::empty());
            started = false;
            i = i + 1;
        } else if c == CR {
            i = i + 1;
        } else {
            field.push(c);
            i = i + 1;
        }
    }
    if started || field.len() > 0 || row.len() > 0 {
        let ghost before_rows = rows_view(rows@);
        let ghost before = row_view(row@);
        let ghost f = field@;
        row.push(field);
        assert(row_view(row@) =~= before.push(f));
        let ghost full = row_view(row@);
        rows.push(row);
        assert(rows_view(rows@) =~= before_rows.push(full));
    }
    rows
}


/// The bytes `from_csv` writes for CSV rows: nothing for no rows, else one
/// group named `name` whose header is the first row and whose records are
/// the other rows.
pub open spec fn csv_group_bytes(rows: Seq<Seq<Seq<u8>>>, name: Seq<u8>) -> Seq<u8> {
    if rows.len() == 0 {
        Seq::empty()
    } else {
        group_bytes(name, Some(rows[0])) + records_bytes(rows.drop_first())
    }
}

/// The names a CSV text needs to be written as a group: the group name and
/// every field of the first row, when there is a row.
pub open spec fn csv_names_ok(rows: Seq<Seq<Seq<u8>>>, name: Seq<u8>) -> bool {
    rows.len() > 0 ==> {
        &&& is_name(name)
        &&& forall|j: int| 0 <= j < rows[0].len() ==> is_name(#[trigger] rows[0][j])
    }
}

fn write_bytes(bytes: &[u8], out: &mut Vec<u8>)
    ensures
        final(out)@ == old(out)@ + bytes@,
{
    let ghost start = out@;
    out.extend_from_slice(bytes);
    assert(out@ =~= start + bytes@);
}

fn write_escaped_bytes(bytes: &[u8], out: &mut Vec<u8>)
    ensures
        final(out)@ == old(out)@ + escape(bytes@),
{
    let ghost start = out@;
    let n = bytes.len();
    for i in 0..n
        invariant
            n == bytes@.len(),
            out@ == start + escape(bytes@.take(i as int)),
    {
        let byte = bytes[i];
        if byte < 0x20 {
            out.push(crate::DLE);
        }
        out.push(byte);
        proof {
            lemma_escape_step(bytes@, i as int);
        }
    }
    proof {
        assert(bytes@.take(n as int) =~= bytes@);
    }
}

// Parts written one after another with US between them; each part escaped
// when `esc` holds.
fn write_joined(parts: &Vec<Vec<u8>>, esc: bool, out: &mut Vec<u8>)
    ensures
        final(out)@ == old(out)@ + joined(
            if esc {
                escaped_all(row_view(parts@))
            } else {
                row_view(parts@)
            },
        ),
{
    let ghost start = out@;
    let ghost ps = if esc {
        escaped_all(row_view(parts@))
    } else {
        row_view(parts@)
    };
    let n = parts.len();
    for i in 0..n
        invariant
            n == parts@.len() == ps.len(),
            ps == (if esc {
                escaped_all(row_view(parts@))
            } else {
                row_view(parts@)
            }),
            out@ == start + joined(ps.take(i as int)),
    {
        let ghost mid = out@;
        if i > 0 {
            out.push(US);
        }
        if esc {
            write_escaped_bytes(parts[i].as_slice(), out);
        } else {
            write_bytes(parts[i].as_slice(), out);
        }
        proof {
            if i > 0 {
                lemma_joined_step(ps, i as int);
            } else {
                assert(ps.take(1) =~= seq![ps[0]]);
                assert(ps.take(0) =~= Seq::<Seq<u8>>::empty());
            }
            assert(out@ =~= start + joined(ps.take(i + 1)));
        }
    }
    proof {
        assert(ps.take(n as int) =~= ps);
    }
}

/// Convert CSV text to C0DATA compact bytes.
///
/// The first row is the header, the rest are records, written as one group
/// (`GS` + name + `SOH` header + `RS` records). Empty input gives an empty
/// buffer. Names hold no control byte, so the group name and the header
/// fields must be names.
pub fn from_csv(input: &str, group_name: &str) -> (r: Vec<u8>)
    requires
        csv_names_ok(csv_rows(input.spec_bytes()), group_name.spec_bytes()),
    ensures
        r@ == csv_group_bytes(csv_rows(input.spec_bytes()), group_name.spec_bytes()),
{
    let rows = parse_csv(input);
    let ghost rv = rows_view(rows@);
    let mut out: Vec<u8> = Vec::new();
    if rows.len() == 0 {
        return out;
    }
    out.push(GS);
    write_bytes(group_name.as_bytes(), &mut out);
    out.push(SOH);
    write_joined(&rows[0], false, &mut out);
    proof {
        assert(out@ =~= group_bytes(group_name.spec_bytes(), Some(rv[0])));
    }
    let ghost head = out@;
    let ghost rest = rv.drop_first();
    let n = rows.len();
    for k in 1..n
        invariant
            n == rows@.len() == rv.len(),
            rv == rows_view(rows@),
            rest == rv.drop_first(),
            out@ == head + records_bytes(rest.take(k - 1)),
    {
        let ghost mid = out@;
        out.push(RS);
        write_joined(&rows[k], true, &mut out);
        proof {
            assert(rest.take(k as int) =~= rest.take(k - 1).push(rv[k as int]));
            lemma_records_bytes_push(rest.take(k - 1), rv[k as int]);
            assert(out@ =~= head + records_bytes(rest.take(k as int)));
        }
    }
    proof {
        assert(rest.take(n - 1) =~= rest);
    }
    out
}


/// The first table of a buffer: the first group of a document (FS first),
/// else the table at the start.
pub open spec fn first_table(s: Seq<u8>) -> TableView {
    if s.len() > 0 && s[0] == FS && document_of(s).groups.len() > 0 {
        table_at(s, document_of(s).groups[0].0)
    } else {
        table_at(s, 0)
    }
}

/// A byte that makes a CSV field need quotes.
pub open spec fn csv_special(b: u8) -> bool {
    b == COMMA || b == QUOTE || b == LF || b == CR
}

/// A field needs quotes when it holds a comma, a quote, or a line break.
pub open spec fn needs_quotes(f: Seq<u8>) -> bool {
    exists|i: int| 0 <= i < f.len() && csv_special(#[trigger] f[i])
}

/// A field with each quote doubled.
pub open spec fn doubled_quotes(f: Seq<u8>) -> Seq<u8>
    decreases f.len(),
{
    if f.len() == 0 {
        Seq::empty()
    } else {
        doubled_quotes(f.drop_last()) + if f.last() == QUOTE {
            seq![QUOTE, QUOTE]
        } else {
            seq![f.last()]
        }
    }
}

/// A field as CSV: quoted, with quotes doubled, when it needs quotes.
pub open spec fn csv_quoted(f: Seq<u8>) -> Seq<u8> {
    if needs_quotes(f) {
        seq![QUOTE] + doubled_quotes(f) + seq![QUOTE]
    } else {
        f
    }
}

/// Parts with a comma between them.
pub open spec fn comma_joined(parts: Seq<Seq<u8>>) -> Seq<u8>
    decreases parts.len(),
{
    if parts.len() == 0 {
        Seq::empty()
    } else if parts.len() == 1 {
        parts[0]
    } else {
        comma_joined(parts.drop_last()) + seq![COMMA] + parts.last()
    }
}

/// One CSV line: the fields quoted as needed, commas between, LF after.
pub open spec fn csv_line(fields: Seq<Seq<u8>>) -> Seq<u8> {
    comma_joined(Seq::new(fields.len(), |i: int| csv_quoted(fields[i]))) + seq![LF]
}

/// The decoded values of a record's fields.
pub open spec fn record_values(r: Seq<u8>) -> Seq<Seq<u8>> {
    Seq::new(fields_of(r).len(), |j: int| unescaped(field_of(r, j)))
}

/// One CSV line per record.
pub open spec fn csv_lines(records: Seq<Seq<u8>>) -> Seq<u8>
    decreases records.len(),
{
    if records.len() == 0 {
        Seq::empty()
    } else {
        csv_lines(records.drop_last()) + csv_line(record_values(records.last()))
    }
}

/// The CSV bytes of a table: the header line if it has headers, then one
/// line per record.
pub open spec fn csv_bytes(t: TableView) -> Seq<u8> {
    (if t.headers.len() > 0 {
        csv_line(t.headers)
    } else {
        Seq::empty()
    }) + csv_lines(t.records)
}

proof fn lemma_comma_joined_step(parts: Seq<Seq<u8>>, i: int)
    requires
        0 <= i < parts.len(),
    ensures
        comma_joined(parts.take(i + 1)) == comma_joined(parts.take(i)) + (if i > 0 {
            seq![COMMA]
        } else {
            Seq::empty()
        }) + parts[i],
{
    assert(parts.take(i + 1).drop_last() =~= parts.take(i));
    if i == 0 {
        assert(parts.take(1) =~= seq![parts[0]]);
        assert(parts.take(0) =~= Seq::<Seq<u8>>::empty());
        assert(comma_joined(parts.take(1)) =~= comma_joined(parts.take(0)) + Seq::<u8>::empty() + parts[0]);
    }
}

// The first table of the buffer: a document's first group if the buffer is
// FS-prefixed, else the table at the start.
fn find_table<'a>(buf: &'a [u8]) -> (t: Table<'a>)
    ensures
        t.view() == first_table(buf@),
{
    if buf.len() > 0 && buf[0] == FS {
        let doc = Document::new(buf);
        if doc.group_count() > 0 {
            return doc.group(0).table();
        }
    }
    Table::new(buf)
}

// A field as CSV, quoted when it holds a comma, quote, or line break.
fn csv_quote(field: &[u8], out: &mut Vec<u8>)
    ensures
        final(out)@ == old(out)@ + csv_quoted(field@),
{
    let ghost start = out@;
    let n = field.len();
    let mut need = false;
    for i in 0..n
        invariant
            n == field@.len(),
            need <==> exists|j: int| 0 <= j < i && csv_special(#[trigger] field@[j]),
    {
        let b = field[i];
        if b == COMMA || b == QUOTE || b == LF || b == CR {
            need = true;
        }
    }
    if need {
        out.push(QUOTE);
        for i in 0..n
            invariant
                n == field@.len(),
                out@ == start + seq![QUOTE] + doubled_quotes(field@.take(i as int)),
        {
            let b = field[i];
            if b == QUOTE {
                out.push(QUOTE);
            }
            out.push(b);
            proof {
                assert(field@.take(i + 1).drop_last() =~= field@.take(i as int));
                assert(out@ =~= start + seq![QUOTE] + doubled_quotes(field@.take(i + 1)));
            }
        }
        out.push(QUOTE);
        proof {
            assert(field@.take(n as int) =~= field@);
        }
    } else {
        write_bytes(field, out);
    }
}

/// Convert C0DATA compact bytes to CSV text.
///
/// Reads the first table of the buffer (the first group of an FS-prefixed
/// document, else a bare group): its header, if it has one, is the first
/// line, then each record's decoded values. The bytes are read as UTF-8
/// text, ill-formed sequences replaced.
pub fn to_csv(buf: &[u8]) -> (r: String)
    ensures
        r@ == utf8_lossy(csv_bytes(first_table(buf@))),
        valid_utf8(csv_bytes(first_table(buf@))) ==> r@ == decode_utf8(csv_bytes(first_table(buf@))),
{
    let t = find_table(buf);
    let ghost tv = t.view();
    let mut out: Vec<u8> = Vec::new();
    let hc = t.header_count();
    if hc > 0 {
        let ghost parts = Seq::new(tv.headers.len(), |i: int| csv_quoted(tv.headers[i]));
        for i in 0..hc
            invariant
                hc == tv.headers.len() == parts.len(),
                tv == t.view(),
                parts == Seq::new(tv.headers.len(), |i: int| csv_quoted(tv.headers[i])),
                out@ == comma_joined(parts.take(i as int)),
        {
            if i > 0 {
                out.push(COMMA);
            }
            csv_quote(t.header(i), &mut out);
            proof {
                lemma_comma_joined_step(parts, i as int);
            }
        }
        out.push(LF);
        proof {
            assert(parts.take(hc as int) =~= parts);
        }
    }
    let ghost head = out@;
    assert(head == (if tv.headers.len() > 0 {
        csv_line(tv.headers)
    } else {
        Seq::empty()
    }));
    let recs = t.records();
    let nr = recs.len();
    for k in 0..nr
        invariant
            nr == recs@.len() == tv.records.len(),
            tv == t.view(),
            forall|m: int| 0 <= m < recs@.len() ==> (#[trigger] recs@[m]).view() == tv.records[m],
            out@ == head + csv_lines(tv.records.take(k as int)),
    {
        let rec = &recs[k];
        let ghost vals = record_values(rec.view());
        let ghost parts = Seq::new(vals.len(), |i: int| csv_quoted(vals[i]));
        let ghost line_start = out@;
        let nf = rec.field_count();
        for j in 0..nf
            invariant
                nf == vals.len() == parts.len(),
                vals == record_values(rec.view()),
                parts == Seq::new(vals.len(), |i: int| csv_quoted(vals[i])),
                out@ == line_start + comma_joined(parts.take(j as int)),
        {
            if j > 0 {
                out.push(COMMA);
            }
            let v = rec.value(j);
            match v {
                Cow::Borrowed(x) => csv_quote(x, &mut out),
                Cow::Owned(o) => csv_quote(o.as_slice(), &mut out),
            }
            proof {
                lemma_comma_joined_step(parts, j as int);
            }
        }
        out.push(LF);
        proof {
            assert(parts.take(nf as int) =~= parts);
            let t2 = tv.records.take(k + 1);
            assert(t2.drop_last() =~= tv.records.take(k as int));
            assert(out@ =~= head + csv_lines(t2));
        }
    }
    proof {
        assert(tv.records.take(nr as int) =~= tv.records);
    }
    bytes_to_string(out.as_slice())
}


// ---- laws ----

proof fn lemma_csv_rows_nonempty(s: Seq<u8>, i: int, st: CsvState)
    requires
        forall|k: int| 0 <= k < st.rows.len() ==> (#[trigger] st.rows[k]).len() > 0,
    ensures
        forall|k: int|
            0 <= k < csv_from(s, i, st).len() ==> (#[trigger] csv_from(s, i, st)[k]).len() > 0,
    decreases s.len() - i,
{
    if i < 0 || i >= s.len() {
        let r = csv_finish(st);
        assert forall|k: int| 0 <= k < r.len() implies (#[trigger] r[k]).len() > 0 by {
            if k < st.rows.len() {
                assert(r[k] == st.rows[k]);
            }
        }
    } else {
        let c = s[i];
        if st.quoted {
            if c == QUOTE && i + 1 < s.len() && s[i + 1] == QUOTE {
                let st2 = CsvState { rows: st.rows, row: st.row, field: st.field.push(QUOTE), quoted: true, started: true };
                lemma_csv_rows_nonempty(s, i + 2, st2);
                assert(csv_from(s, i, st) == csv_from(s, i + 2, st2));
            } else if c == QUOTE {
                let st2 = CsvState { rows: st.rows, row: st.row, field: st.field, quoted: false, started: true };
            lemma_csv_rows_nonempty(s, i + 1, st2);
            assert(csv_from(s, i, st) == csv_from(s, i + 1, st2));
            } else {
                let st2 = CsvState { rows: st.rows, row: st.row, field: st.field.push(c), quoted: true, started: true };
                lemma_csv_rows_nonempty(s, i + 1, st2);
                assert(csv_from(s, i, st) == csv_from(s, i + 1, st2));
            }
        } else if c == QUOTE {
            let st2 = CsvState { rows: st.rows, row: st.row, field: st.field, quoted: true, started: true };
            lemma_csv_rows_nonempty(s, i + 1, st2);
            assert(csv_from(s, i, st) == csv_from(s, i + 1, st2));
        } else if c == COMMA {
            let st2 = CsvState {
                rows: st.rows,
                row: st.row.push(st.field),
                field: Seq::empty(),
                quoted: false,
                started: true,
            };
            lemma_csv_rows_nonempty(s, i + 1, st2);
            assert(csv_from(s, i, st) == csv_from(s, i + 1, st2));
        } else if c == LF {
            let st2 = CsvState {
                rows: st.rows.push(st.row.push(st.field)),
                row: Seq::empty(),
                field: Seq::empty(),
                quoted: false,
                started: false,
            };
            assert forall|k: int| 0 <= k < st2.rows.len() implies (#[trigger] st2.rows[k]).len()
                > 0 by {
                if k < st.rows.len() {
                    assert(st2.rows[k] == st.rows[k]);
                }
            }
            lemma_csv_rows_nonempty(s, i + 1, st2);
            assert(csv_from(s, i, st) == csv_from(s, i + 1, st2));
        } else if c == CR {
            let st2 = CsvState { rows: st.rows, row: st.row, field: st.field, quoted: false, started: true };
            lemma_csv_rows_nonempty(s, i + 1, st2);
            assert(csv_from(s, i, st) == csv_from(s, i + 1, st2));
        } else {
            let st2 = CsvState { rows: st.rows, row: st.row, field: st.field.push(c), quoted: false, started: true };
            lemma_csv_rows_nonempty(s, i + 1, st2);
            assert(csv_from(s, i, st) == csv_from(s, i + 1, st2));
        }
    }
}

/// Every row of a CSV text has at least one field.
pub proof fn csv_rows_have_fields(s: Seq<u8>)
    ensures
        forall|k: int| 0 <= k < csv_rows(s).len() ==> (#[trigger] csv_rows(s)[k]).len() > 0,
{
    lemma_csv_rows_nonempty(
        s,
        0,
        CsvState { rows: Seq::empty(), row: Seq::empty(), field: Seq::empty(), quoted: false, started: false },
    );
}

/// What `from_csv` writes for a non-empty CSV text reads back as a table
/// named after the group, whose header is the first row and whose records
/// decode, field by field, to the other rows.
pub proof fn csv_reads_back(s: Seq<u8>, name: Seq<u8>, i: int, j: int)
    requires
        csv_rows(s).len() > 0,
        csv_names_ok(csv_rows(s), name),
        0 <= i < csv_rows(s).len() - 1,
        0 <= j < csv_rows(s)[i + 1].len(),
    ensures
        ({
            let rows = csv_rows(s);
            let t = table_at(csv_group_bytes(rows, name), 0);
            &&& t.name == name
            &&& t.headers == rows[0]
            &&& t.records.len() == rows.len() - 1
            &&& fields_of(t.records[i]).len() == rows[i + 1].len()
            &&& unescaped(field_of(t.records[i], j)) == rows[i + 1][j]
        }),
{
    let rows = csv_rows(s);
    csv_rows_have_fields(s);
    assert(rows[0].len() > 0);
    let rest = rows.drop_first();
    assert(rest[i] == rows[i + 1]);
    crate::properties::table_reads_back(name, Some(rows[0]), rest);
    crate::properties::table_fields_read_back(name, Some(rows[0]), rest, i, j);
}

/// One CSV line per row of values.
pub open spec fn csv_value_lines(rows: Seq<Seq<Seq<u8>>>) -> Seq<u8>
    decreases rows.len(),
{
    if rows.len() == 0 {
        Seq::empty()
    } else {
        csv_value_lines(rows.drop_last()) + csv_line(rows.last())
    }
}

proof fn lemma_csv_lines_of_rows(rows: Seq<Seq<Seq<u8>>>)
    requires
        forall|k: int| 0 <= k < rows.len() ==> (#[trigger] rows[k]).len() > 0,
    ensures
        csv_lines(crate::properties::raw_rows(rows)) == csv_value_lines(rows),
    decreases rows.len(),
{
    let raw = crate::properties::raw_rows(rows);
    if rows.len() > 0 {
        let init = rows.drop_last();
        assert(crate::properties::raw_rows(init) =~= raw.drop_last());
        lemma_csv_lines_of_rows(init);
        let last = rows.last();
        crate::properties::record_fields_read_back(last);
        assert(raw.last() == joined(escaped_all(last)));
        assert(record_values(raw.last()) =~= last);
    } else {
        assert(raw =~= Seq::<Seq<u8>>::empty());
    }
}

/// A table written with a header and records of at least one field each
/// comes out of `to_csv` as the header line, then one line per record with
/// the values written.
pub proof fn built_table_to_csv(name: Seq<u8>, headers: Seq<Seq<u8>>, rows: Seq<Seq<Seq<u8>>>)
    requires
        is_name(name),
        headers.len() > 0,
        forall|k: int| 0 <= k < headers.len() ==> is_name(#[trigger] headers[k]),
        forall|k: int| 0 <= k < rows.len() ==> (#[trigger] rows[k]).len() > 0,
    ensures
        csv_bytes(first_table(group_bytes(name, Some(headers)) + records_bytes(rows)))
            == csv_line(headers) + csv_value_lines(rows),
{
    let s = group_bytes(name, Some(headers)) + records_bytes(rows);
    assert(s[0] == GS);
    crate::properties::table_reads_back(name, Some(headers), rows);
    lemma_csv_lines_of_rows(rows);
}


fn all_name_bytes(b: &[u8]) -> (r: bool)
    ensures
        r == is_name(b@),
{
    let n = b.len();
    for i in 0..n
        invariant
            n == b@.len(),
            forall|k: int| 0 <= k < i ==> b@[k] >= 0x20,
    {
        if b[i] < 0x20 {
            return false;
        }
    }
    true
}

/// Whether `from_csv` can write this CSV text under this group name: when
/// the text has a row, the group name and every field of the first row
/// hold no control byte.
pub fn csv_names_valid(input: &str, group_name: &str) -> (r: bool)
    ensures
        r == csv_names_ok(csv_rows(input.spec_bytes()), group_name.spec_bytes()),
{
    let rows = parse_csv(input);
    if rows.len() == 0 {
        return true;
    }
    if !all_name_bytes(group_name.as_bytes()) {
        return false;
    }
    let ghost h = rows_view(rows@)[0];
    let n = rows[0].len();
    for j in 0..n
        invariant
            n == rows@[0]@.len() == h.len(),
            rows@.len() > 0,
            rows_view(rows@) == csv_rows(input.spec_bytes()),
            is_name(group_name.spec_bytes()),
            h == rows_view(rows@)[0],
            forall|k: int| 0 <= k < j ==> is_name(#[trigger] h[k]),
    {
        if !all_name_bytes(rows[0][j].as_slice()) {
            assert(h[j as int] == rows@[0]@[j as int]@);
            assert(csv_rows(input.spec_bytes())[0] == h);
            assert(!is_name(csv_rows(input.spec_bytes())[0][j as int]));
            return false;
        }
        assert(h[j as int] == rows@[0]@[j as int]@);
    }
    true
}

} // verus!
