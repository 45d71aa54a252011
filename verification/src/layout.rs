//! Column layouts of the pretty form: the fields of consecutive header and
//! record lines padded with spaces so that their separators line up, with or
//! without a space on each side of each separator.

use vstd::prelude::*;

use vstd::string::StringSliceAdditionalSpecFns;
use vstd::utf8::{decode_utf8, valid_utf8};

use crate::pretty::{format_compact, glyph_bytes, picture_at, picture_code, pretty_bytes, push_glyph};
use crate::text::{bytes_to_string, utf8_lossy};
use crate::{DLE, ETX, RS, SOH, STX, US};

verus! {

/// The byte views of a list of buffers.
pub open spec fn views(v: Seq<Vec<u8>>) -> Seq<Seq<u8>> {
    Seq::new(v.len(), |i: int| v[i]@)
}

/// The lines of `b` from `p` on, split at LF (which is dropped), the current
/// line holding `cur` so far.
pub open spec fn split_from(b: Seq<u8>, p: int, cur: Seq<u8>) -> Seq<Seq<u8>>
    decreases b.len() - p,
{
    if p < 0 || p >= b.len() {
        seq![cur]
    } else if b[p] == 0x0a {
        seq![cur] + split_from(b, p + 1, Seq::empty())
    } else {
        split_from(b, p + 1, cur.push(b[p]))
    }
}

/// The lines of `b`.
pub open spec fn lines_of(b: Seq<u8>) -> Seq<Seq<u8>> {
    split_from(b, 0, Seq::empty())
}

/// Lines joined with LF between them.
pub open spec fn join_lf(ls: Seq<Seq<u8>>) -> Seq<u8>
    decreases ls.len(),
{
    if ls.len() == 0 {
        Seq::empty()
    } else if ls.len() == 1 {
        ls[0]
    } else {
        join_lf(ls.drop_last()) + seq![0x0au8] + ls.last()
    }
}

pub(crate) proof fn lemma_join_front(a: Seq<u8>, ls: Seq<Seq<u8>>)
    requires
        ls.len() > 0,
    ensures
        join_lf(seq![a] + ls) == a + seq![0x0au8] + join_lf(ls),
    decreases ls.len(),
{
    let w = seq![a] + ls;
    if ls.len() == 1 {
        assert(w.drop_last() =~= seq![a]);
        assert(seq![a][0] == a);
        assert(join_lf(seq![a]) == a);
        assert(w.last() == ls[0]);
        assert(join_lf(w) == join_lf(w.drop_last()) + seq![0x0au8] + w.last());
    } else {
        assert(w.drop_last() =~= seq![a] + ls.drop_last());
        lemma_join_front(a, ls.drop_last());
        assert(w.last() == ls.last());
        assert(join_lf(w) == join_lf(w.drop_last()) + seq![0x0au8] + w.last());
        assert(join_lf(ls) == join_lf(ls.drop_last()) + seq![0x0au8] + ls.last());
        assert(join_lf(w) =~= a + seq![0x0au8] + join_lf(ls));
    }
}

proof fn lemma_split_rejoin(b: Seq<u8>, p: int, cur: Seq<u8>)
    requires
        0 <= p <= b.len(),
    ensures
        join_lf(split_from(b, p, cur)) == cur + b.subrange(p, b.len() as int),
    decreases b.len() - p,
{
    if p == b.len() {
        assert(cur + b.subrange(p, b.len() as int) =~= cur);
    } else if b[p] == 0x0a {
        lemma_split_rejoin(b, p + 1, Seq::empty());
        lemma_join_front(cur, split_from(b, p + 1, Seq::empty()));
        assert(cur + seq![0x0au8] + (Seq::<u8>::empty() + b.subrange(p + 1, b.len() as int))
            =~= cur + b.subrange(p, b.len() as int));
    } else {
        lemma_split_rejoin(b, p + 1, cur.push(b[p]));
        assert(cur.push(b[p]) + b.subrange(p + 1, b.len() as int) =~= cur + b.subrange(
            p,
            b.len() as int,
        ));
    }
}

/// Splitting into lines loses nothing: the lines joined with LF are the
/// bytes again. A layout changes header and record lines only.
pub proof fn lines_rejoin(b: Seq<u8>)
    ensures
        join_lf(lines_of(b)) == b,
{
    lemma_split_rejoin(b, 0, Seq::empty());
    assert(Seq::<u8>::empty() + b.subrange(0, b.len() as int) =~= b);
}

fn split_lines(b: &Vec<u8>) -> (r: Vec<Vec<u8>>)
    ensures
        views(r@) == lines_of(b@),
{
    let mut lines: Vec<Vec<u8>> = Vec::new();
    let mut cur: Vec<u8> = Vec::new();
    let n = b.len();
    for p in 0..n
        invariant
            n == b@.len(),
            views(lines@) + split_from(b@, p as int, cur@) == lines_of(b@),
    {
        if b[p] == 0x0a {
            let ghost before = views(lines@);
            let ghost c = cur@;
            let mut done: Vec<u8> = Vec::new();
            std::mem::swap(&mut done, &mut cur);
            lines.push(done);
            assert(views(lines@) =~= before.push(c));
            assert(before + (seq![c] + split_from(b@, p + 1, Seq::empty())) =~= before.push(c)
                + split_from(b@, p + 1, Seq::empty()));
        } else {
            cur.push(b[p]);
        }
    }
    let ghost before = views(lines@);
    let ghost c = cur@;
    lines.push(cur);
    assert(views(lines@) =~= before + seq![c]);
    lines
}

fn join_lines(ls: &Vec<Vec<u8>>) -> (r: Vec<u8>)
    ensures
        r@ == join_lf(views(ls@)),
{
    let mut out: Vec<u8> = Vec::new();
    let n = ls.len();
    for i in 0..n
        invariant
            n == ls@.len(),
            out@ == join_lf(views(ls@).take(i as int)),
    {
        let ghost before = out@;
        if i > 0 {
            out.push(0x0a);
        }
        let l = &ls[i];
        let m = l.len();
        for k in 0..m
            invariant
                m == l@.len(),
                out@ == (if i > 0 {
                    before.push(0x0au8)
                } else {
                    before
                }) + l@.take(k as int),
        {
            out.push(l[k]);
            assert(l@.take(k + 1) =~= l@.take(k as int).push(l@[k as int]));
        }
        proof {
            let t = views(ls@).take(i + 1);
            assert(t.drop_last() =~= views(ls@).take(i as int));
            assert(t.last() == l@);
            assert(l@.take(m as int) =~= l@);
            if i == 0 {
                assert(t =~= seq![l@]);
            }
        }
    }
    assert(views(ls@).take(n as int) =~= views(ls@));
    out
}

/// STX opens a nested scope and ETX closes one.
pub open spec fn next_depth(depth: nat, code: u8) -> nat {
    if code == STX {
        depth + 1
    } else if code == ETX && depth > 0 {
        (depth - 1) as nat
    } else {
        depth
    }
}

/// The cells of a line from `p` on: the text between the separator
/// pictures (US) that stand outside nested scopes and are not escaped by the
/// escape picture (DLE) right before them. `cur` is the current cell so far;
/// `esc` says that the last picture escapes what follows.
pub open spec fn cells_from(l: Seq<u8>, p: int, cur: Seq<u8>, depth: nat, esc: bool) -> Seq<Seq<u8>>
    decreases l.len() - p,
{
    if p < 0 || p >= l.len() {
        seq![cur]
    } else if picture_at(l, p) {
        let code = picture_code(l, p);
        if code == US && depth == 0 && !esc {
            seq![cur] + cells_from(l, p + 3, Seq::empty(), 0, false)
        } else {
            cells_from(l, p + 3, cur + l.subrange(p, p + 3), next_depth(depth, code), code == DLE && !esc)
        }
    } else {
        cells_from(l, p + 1, cur.push(l[p]), depth, false)
    }
}

/// The cells of a line.
pub open spec fn cells_of(l: Seq<u8>) -> Seq<Seq<u8>> {
    cells_from(l, 0, Seq::empty(), 0, false)
}

fn line_cells(l: &Vec<u8>) -> (r: Vec<Vec<u8>>)
    ensures
        views(r@) == cells_of(l@),
{
    let mut cells: Vec<Vec<u8>> = Vec::new();
    let mut cur: Vec<u8> = Vec::new();
    let mut depth: usize = 0;
    let mut esc = false;
    let n = l.len();
    let mut p: usize = 0;
    while p < n
        invariant
            n == l@.len(),
            p <= n,
            depth <= p,
            views(cells@) + cells_from(l@, p as int, cur@, depth as nat, esc) == cells_of(l@),
        decreases n - p,
    {
        if n - p > 2 && l[p] == 0xE2 && l[p + 1] == 0x90 && 0x80 <= l[p + 2] && l[p + 2] <= 0x9F {
            let code = l[p + 2] - 0x80;
            assert(picture_at(l@, p as int) && picture_code(l@, p as int) == code);
            if code == US && depth == 0 && !esc {
                let ghost before = views(cells@);
                let ghost c = cur@;
                let mut done: Vec<u8> = Vec::new();
                std::mem::swap(&mut done, &mut cur);
                cells.push(done);
                assert(views(cells@) =~= before.push(c));
                assert(before + (seq![c] + cells_from(l@, p + 3, Seq::empty(), 0, false))
                    =~= before.push(c) + cells_from(l@, p + 3, Seq::empty(), 0, false));
            } else {
                let ghost c = cur@;
                cur.push(l[p]);
                cur.push(l[p + 1]);
                cur.push(l[p + 2]);
                assert(cur@ =~= c + l@.subrange(p as int, p + 3));
                if code == STX {
                    depth = depth + 1;
                } else if code == ETX && depth > 0 {
                    depth = depth - 1;
                }
                esc = code == DLE && !esc;
            }
            p = p + 3;
        } else {
            assert(!picture_at(l@, p as int));
            cur.push(l[p]);
            esc = false;
            p = p + 1;
        }
    }
    let ghost before = views(cells@);
    let ghost c = cur@;
    cells.push(cur);
    assert(views(cells@) =~= before + seq![c]);
    cells
}

/// The number of characters in well-formed text: the bytes that do not
/// continue a character.
pub open spec fn char_count(c: Seq<u8>) -> nat
    decreases c.len(),
{
    if c.len() == 0 {
        0
    } else {
        char_count(c.drop_last()) + if 0x80 <= c.last() <= 0xBF {
            0nat
        } else {
            1nat
        }
    }
}

fn count_chars(c: &Vec<u8>) -> (r: usize)
    ensures
        r == char_count(c@),
{
    let mut k: usize = 0;
    let n = c.len();
    for i in 0..n
        invariant
            n == c@.len(),
            k == char_count(c@.take(i as int)),
            k <= i,
    {
        assert(c@.take(i + 1).drop_last() =~= c@.take(i as int));
        if !(0x80 <= c[i] && c[i] <= 0xBF) {
            k = k + 1;
        }
    }
    assert(c@.take(n as int) =~= c@);
    k
}

/// The end of the spaces and tabs that start at `p`.
pub open spec fn lead_from(l: Seq<u8>, p: int) -> int
    decreases l.len() - p,
{
    if 0 <= p < l.len() && (l[p] == 0x20 || l[p] == 0x09) {
        lead_from(l, p + 1)
    } else {
        p
    }
}

/// A header or record line: after its indent, the picture of SOH or RS.
pub open spec fn field_line(l: Seq<u8>) -> bool {
    let q = lead_from(l, 0);
    picture_at(l, q) && (picture_code(l, q) == SOH || picture_code(l, q) == RS)
}

fn is_field_line(l: &Vec<u8>) -> (r: bool)
    ensures
        r == field_line(l@),
{
    let n = l.len();
    let mut q: usize = 0;
    while q < n && (l[q] == 0x20 || l[q] == 0x09)
        invariant
            q <= n == l@.len(),
            lead_from(l@, q as int) == lead_from(l@, 0),
        decreases n - q,
    {
        q = q + 1;
    }
    if q < n && n - q > 2 && l[q] == 0xE2 && l[q + 1] == 0x90 && 0x80 <= l[q + 2] && l[q + 2] <= 0x9F {
        let code = l[q + 2] - 0x80;
        code == SOH || code == RS
    } else {
        false
    }
}

/// The width of column `j` over the rows of a run: the most characters
/// of a cell in that column that has a cell after it.
pub open spec fn col_width(rows: Seq<Seq<Seq<u8>>>, j: int) -> nat
    decreases rows.len(),
{
    if rows.len() == 0 {
        0
    } else {
        let w = col_width(rows.drop_last(), j);
        let r = rows.last();
        let c = if 0 <= j < r.len() - 1 {
            char_count(r[j])
        } else {
            0
        };
        if c > w {
            c
        } else {
            w
        }
    }
}

/// `n` spaces.
pub open spec fn spaces(n: nat) -> Seq<u8> {
    Seq::new(n, |i: int| 0x20u8)
}

/// A cell padded with spaces to `w` characters.
pub open spec fn padded(c: Seq<u8>, w: nat) -> Seq<u8> {
    if char_count(c) < w {
        c + spaces((w - char_count(c)) as nat)
    } else {
        c
    }
}

/// The cells of a row from `k` on, each but the last padded to its
/// column's width over `rows` and followed by `sep`.
pub open spec fn aligned_from(cells: Seq<Seq<u8>>, k: int, rows: Seq<Seq<Seq<u8>>>, sep: Seq<u8>) -> Seq<u8>
    decreases cells.len() - k,
{
    if k < 0 || k >= cells.len() {
        Seq::empty()
    } else if k == cells.len() - 1 {
        cells[k]
    } else {
        padded(cells[k], col_width(rows, k)) + sep + aligned_from(cells, k + 1, rows, sep)
    }
}

/// How many lines from `i` on are header or record lines, one after another.
pub open spec fn run_len(ls: Seq<Seq<u8>>, i: int) -> nat
    decreases ls.len() - i,
{
    if 0 <= i < ls.len() && field_line(ls[i]) {
        1 + run_len(ls, i + 1)
    } else {
        0
    }
}

pub(crate) proof fn lemma_run_len(ls: Seq<Seq<u8>>, i: int)
    requires
        0 <= i <= ls.len(),
    ensures
        i + run_len(ls, i) <= ls.len(),
        forall|k: int| i <= k < i + run_len(ls, i) ==> field_line(#[trigger] ls[k]),
        i + run_len(ls, i) < ls.len() ==> !field_line(ls[i + run_len(ls, i)]),
    decreases ls.len() - i,
{
    if i < ls.len() && field_line(ls[i]) {
        lemma_run_len(ls, i + 1);
    }
}

#[via_fn]
proof fn layout_from_decreases(ls: Seq<Seq<u8>>, i: int, sep: Seq<u8>) {
    if 0 <= i < ls.len() {
        lemma_run_len(ls, i);
    }
}

/// The lines from `i` on, each run of header and record lines with its
/// columns lined up.
pub open spec fn layout_from(ls: Seq<Seq<u8>>, i: int, sep: Seq<u8>) -> Seq<Seq<u8>>
    decreases ls.len() - i,
    via layout_from_decreases
{
    if i < 0 || i >= ls.len() {
        Seq::empty()
    } else {
        let n = run_len(ls, i);
        if n == 0 {
            seq![ls[i]] + layout_from(ls, i + 1, sep)
        } else {
            let rows = Seq::new(n, |k: int| cells_of(ls[i + k]));
            Seq::new(n, |k: int| aligned_from(rows[k], 0, rows, sep)) + layout_from(
                ls,
                i + n,
                sep,
            )
        }
    }
}

/// The cells of each row of a run, as byte views.
pub open spec fn rows_view(v: Seq<Vec<Vec<u8>>>) -> Seq<Seq<Seq<u8>>> {
    Seq::new(v.len(), |k: int| views(v[k]@))
}

fn column_widths(rows: &Vec<Vec<Vec<u8>>>) -> (r: Vec<usize>)
    ensures
        forall|j: int| 0 <= j < r@.len() ==> r@[j] == col_width(rows_view(rows@), j),
        forall|k: int| 0 <= k < rows@.len() ==> #[trigger] rows@[k]@.len() <= r@.len() + 1,
{
    let ghost rv = rows_view(rows@);
    let mut widths: Vec<usize> = Vec::new();
    let n = rows.len();
    for k in 0..n
        invariant
            n == rows@.len(),
            rv == rows_view(rows@),
            forall|j: int| 0 <= j < widths@.len() ==> widths@[j] == col_width(rv.take(k as int), j),
            forall|k2: int| 0 <= k2 < k ==> #[trigger] rows@[k2]@.len() <= widths@.len() + 1,
    {
        let row = &rows[k];
        let m = row.len();
        let ghost prev = rv.take(k as int);
        let ghost next = rv.take(k + 1);
        proof {
            assert(next.drop_last() =~= prev);
            assert(next.last() == views(row@));
        }
        let last: usize = if m > 0 {
            m - 1
        } else {
            0
        };
        for j in 0..last
            invariant
                n == rows@.len(),
                k < n,
                rv == rows_view(rows@),
                row == &rows@[k as int],
                m == row@.len(),
                last == (if m > 0 { m - 1 } else { 0 }),
                prev == rv.take(k as int),
                next == rv.take(k + 1),
                next.drop_last() == prev,
                next.last() == views(row@),
                j <= widths@.len(),
                forall|t: int| 0 <= t < j ==> widths@[t] == col_width(next, t),
                forall|t: int| j <= t < widths@.len() ==> widths@[t] == col_width(prev, t),
                forall|k2: int| 0 <= k2 < k ==> #[trigger] rows@[k2]@.len() <= widths@.len() + 1,
        {
            if j == widths.len() {
                assert(col_width(prev, j as int) == 0) by {
                    assert forall|k2: int| 0 <= k2 < prev.len() implies #[trigger] prev[k2].len()
                        <= j + 1 by {
                        assert(prev[k2] == rv[k2]);
                        assert(rv[k2] == views(rows@[k2]@));
                        assert(rows@[k2]@.len() <= widths@.len() + 1);
                    }
                    lemma_col_width_absent(prev, j as int);
                }
                widths.push(0);
            }
            let c = count_chars(&row[j]);
            proof {
                assert(views(row@)[j as int] == row@[j as int]@);
                assert(widths@[j as int] == col_width(prev, j as int));
                assert(0 <= j < next.last().len() - 1);
                assert(col_width(next, j as int) == if c > col_width(prev, j as int) {
                    c as nat
                } else {
                    col_width(prev, j as int)
                });
            }
            if c > widths[j] {
                widths.set(j, c);
            }
        }
        proof {
            assert forall|t: int| 0 <= t < widths@.len() implies widths@[t] == col_width(next, t) by {
                if t >= last {
                    assert(col_width(next, t) == col_width(prev, t));
                }
            }
            assert forall|k2: int| 0 <= k2 < k + 1 implies #[trigger] rows@[k2]@.len() <= widths@.len()
                + 1 by {
                if k2 == k {
                    assert(rows@[k2]@.len() == m);
                }
            }
        }
    }
    assert(rv.take(n as int) =~= rv);
    widths
}

proof fn lemma_col_width_absent(rows: Seq<Seq<Seq<u8>>>, j: int)
    requires
        forall|k: int| 0 <= k < rows.len() ==> #[trigger] rows[k].len() <= j + 1,
    ensures
        col_width(rows, j) == 0,
    decreases rows.len(),
{
    if rows.len() > 0 {
        let front = rows.drop_last();
        assert forall|k: int| 0 <= k < front.len() implies #[trigger] front[k].len() <= j + 1 by {
            assert(front[k] == rows[k]);
        }
        lemma_col_width_absent(front, j);
        assert(rows.last() == rows[rows.len() - 1]);
    }
}


fn push_bytes(out: &mut Vec<u8>, b: &Vec<u8>)
    ensures
        final(out)@ == old(out)@ + b@,
{
    let ghost start = out@;
    let n = b.len();
    for k in 0..n
        invariant
            n == b@.len(),
            out@ == start + b@.take(k as int),
    {
        out.push(b[k]);
        assert(b@.take(k + 1) =~= b@.take(k as int).push(b@[k as int]));
    }
    assert(b@.take(n as int) =~= b@);
}

fn push_padded(out: &mut Vec<u8>, cell: &Vec<u8>, w: usize)
    ensures
        final(out)@ == old(out)@ + padded(cell@, w as nat),
{
    push_bytes(out, cell);
    let c = count_chars(cell);
    if c < w {
        let ghost mid = out@;
        for t in 0..(w - c)
            invariant
                out@ == mid + spaces(t as nat),
        {
            out.push(0x20);
            assert(spaces((t + 1) as nat) =~= spaces(t as nat).push(0x20u8));
        }
        assert(out@ =~= old(out)@ + (cell@ + spaces((w - c) as nat)));
    } else {
        assert(padded(cell@, w as nat) == cell@);
    }
}

fn push_aligned(
    out: &mut Vec<u8>,
    cells: &Vec<Vec<u8>>,
    widths: &Vec<usize>,
    sep: &Vec<u8>,
    Ghost(rows): Ghost<Seq<Seq<Seq<u8>>>>,
)
    requires
        cells@.len() <= widths@.len() + 1,
        forall|j: int| 0 <= j < widths@.len() ==> widths@[j] == col_width(rows, j),
    ensures
        final(out)@ == old(out)@ + aligned_from(views(cells@), 0, rows, sep@),
{
    let ghost cv = views(cells@);
    let m = cells.len();
    for k in 0..m
        invariant
            m == cells@.len(),
            cv == views(cells@),
            m <= widths@.len() + 1,
            forall|j: int| 0 <= j < widths@.len() ==> widths@[j] == col_width(rows, j),
            old(out)@ + aligned_from(cv, 0, rows, sep@) == out@ + aligned_from(cv, k as int, rows, sep@),
    {
        let ghost before = out@;
        assert(cv[k as int] == cells@[k as int]@);
        if k + 1 < m {
            push_padded(out, &cells[k], widths[k]);
            push_bytes(out, sep);
            assert(before + aligned_from(cv, k as int, rows, sep@) == out@ + aligned_from(
                cv,
                k + 1,
                rows,
                sep@,
            )) by {
                assert(aligned_from(cv, k as int, rows, sep@) == padded(cv[k as int], col_width(rows, k as int))
                    + sep@ + aligned_from(cv, k + 1, rows, sep@));
            }
        } else {
            push_bytes(out, &cells[k]);
            assert(aligned_from(cv, k + 1, rows, sep@) == Seq::<u8>::empty());
            assert(out@ + aligned_from(cv, k + 1, rows, sep@) =~= out@);
        }
    }
    assert(aligned_from(cv, m as int, rows, sep@) == Seq::<u8>::empty());
    assert(out@ + aligned_from(cv, m as int, rows, sep@) =~= out@);
}

proof fn lemma_run_len_exact(ls: Seq<Seq<u8>>, i: int, j: int)
    requires
        0 <= i <= j <= ls.len(),
        forall|k: int| i <= k < j ==> field_line(#[trigger] ls[k]),
        j == ls.len() || !field_line(ls[j]),
    ensures
        run_len(ls, i) == j - i,
    decreases j - i,
{
    if i < j {
        lemma_run_len_exact(ls, i + 1, j);
    }
}

fn layout(ls: &Vec<Vec<u8>>, sep: &Vec<u8>) -> (r: Vec<Vec<u8>>)
    ensures
        views(r@) == layout_from(views(ls@), 0, sep@),
{
    let ghost lv = views(ls@);
    let mut out: Vec<Vec<u8>> = Vec::new();
    let n = ls.len();
    let mut i: usize = 0;
    while i < n
        invariant
            n == ls@.len(),
            lv == views(ls@),
            i <= n,
            views(out@) + layout_from(lv, i as int, sep@) == layout_from(lv, 0, sep@),
        decreases n - i,
    {
        let ghost before = views(out@);
        if is_field_line(&ls[i]) {
            let mut rows: Vec<Vec<Vec<u8>>> = Vec::new();
            let mut j = i;
            while j < n && is_field_line(&ls[j])
                invariant
                    n == ls@.len(),
                    lv == views(ls@),
                    i <= j <= n,
                    rows_view(rows@) =~= Seq::new((j - i) as nat, |k: int| cells_of(lv[i + k])),
                    forall|k: int| i <= k < j ==> field_line(#[trigger] lv[k]),
                decreases n - j,
            {
                let cells = line_cells(&ls[j]);
                let ghost prev = rows_view(rows@);
                rows.push(cells);
                assert(rows_view(rows@) =~= prev.push(cells_of(lv[j as int])));
                j = j + 1;
            }
            proof {
                lemma_run_len_exact(lv, i as int, j as int);
            }
            let widths = column_widths(&rows);
            let ghost rv = rows_view(rows@);
            let ghost laid = Seq::new((j - i) as nat, |k: int| aligned_from(rv[k], 0, rv, sep@));
            let m = rows.len();
            for k in 0..m
                invariant
                    m == rows@.len(),
                    rv == rows_view(rows@),
                    forall|j2: int| 0 <= j2 < widths@.len() ==> widths@[j2] == col_width(rv, j2),
                    forall|k2: int| 0 <= k2 < rows@.len() ==> #[trigger] rows@[k2]@.len() <= widths@.len() + 1,
                    views(out@) == before + laid.take(k as int),
                    laid == Seq::new(m as nat, |t: int| aligned_from(rv[t], 0, rv, sep@)),
            {
                let mut line: Vec<u8> = Vec::new();
                assert(rows@[k as int]@.len() <= widths@.len() + 1);
                push_aligned(&mut line, &rows[k], &widths, sep, Ghost(rv));
                assert(line@ =~= aligned_from(rv[k as int], 0, rv, sep@));
                let ghost prevv = views(out@);
                out.push(line);
                proof {
                    assert(views(out@) =~= prevv.push(line@));
                    assert(laid[k as int] == line@);
                    assert(laid.take(k + 1) =~= laid.take(k as int).push(laid[k as int]));
                    assert(views(out@) =~= before + laid.take(k + 1));
                }
            }
            proof {
                assert(laid.take(m as int) =~= laid);
                assert(layout_from(lv, i as int, sep@) == laid + layout_from(lv, j as int, sep@));
                assert(views(out@) + layout_from(lv, j as int, sep@) =~= before + layout_from(
                    lv,
                    i as int,
                    sep@,
                ));
            }
            i = j;
        } else {
            let mut line: Vec<u8> = Vec::new();
            push_bytes(&mut line, &ls[i]);
            out.push(line);
            proof {
                assert(run_len(lv, i as int) == 0);
                assert(views(out@) =~= before.push(lv[i as int]));
                assert(layout_from(lv, i as int, sep@) == seq![lv[i as int]] + layout_from(lv, i + 1, sep@));
                assert(views(out@) + layout_from(lv, i + 1, sep@) =~= before + layout_from(
                    lv,
                    i as int,
                    sep@,
                ));
            }
            i = i + 1;
        }
    }
    assert(layout_from(lv, n as int, sep@) == Seq::<Seq<u8>>::empty());
    assert(views(out@) + layout_from(lv, n as int, sep@) =~= views(out@));
    out
}

/// How the pretty form lays out header and record lines.
#[derive(Debug, Clone, Copy, PartialEq, Eq)]
pub enum FormatMode {
    /// Fields as they come, as `format_with` writes them.
    Compact,
    /// Fields padded with spaces so that the separators of consecutive
    /// header and record lines line up.
    Aligned,
    /// Aligned, with a space on each side of each separator.
    Spaced,
}

/// What stands between two cells in a mode that aligns them.
pub open spec fn separator(mode: FormatMode) -> Seq<u8> {
    match mode {
        FormatMode::Spaced => seq![0x20u8] + glyph_bytes(US) + seq![0x20u8],
        _ => glyph_bytes(US),
    }
}

/// The pretty bytes `b` laid out in a mode.
pub open spec fn laid_out(b: Seq<u8>, mode: FormatMode) -> Seq<u8> {
    match mode {
        FormatMode::Compact => b,
        _ => join_lf(layout_from(lines_of(b), 0, separator(mode))),
    }
}

/// Format a compact buffer as pretty text with a custom indent, in a layout:
/// `Compact` as `format_with`; `Aligned` pads the fields of each run of
/// consecutive header and record lines so that their separators line up;
/// `Spaced` also puts a space on each side of each separator. Padding
/// stands next to a separator, where `parse` trims it.
pub fn format_mode(buf: &[u8], indent: &str, mode: FormatMode) -> (r: String)
    ensures
        r@ == utf8_lossy(laid_out(pretty_bytes(buf@, indent.spec_bytes()), mode)),
        valid_utf8(laid_out(pretty_bytes(buf@, indent.spec_bytes()), mode)) ==> r@ == decode_utf8(
            laid_out(pretty_bytes(buf@, indent.spec_bytes()), mode),
        ),
{
    let mut out: Vec<u8> = Vec::new();
    format_compact(buf, indent.as_bytes(), &mut out);
    assert(out@ =~= pretty_bytes(buf@, indent.spec_bytes()));
    match mode {
        FormatMode::Compact => bytes_to_string(out.as_slice()),
        _ => {
            let mut sep: Vec<u8> = Vec::new();
            let spaced = match mode {
                FormatMode::Spaced => true,
                _ => false,
            };
            if spaced {
                sep.push(0x20);
            }
            push_glyph(&mut sep, US);
            if spaced {
                sep.push(0x20);
            }
            assert(sep@ =~= separator(mode));
            let lines = split_lines(&out);
            let laid = layout(&lines, &sep);
            let text = join_lines(&laid);
            bytes_to_string(text.as_slice())
        },
    }
}

} // verus!
