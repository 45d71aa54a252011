//! The column layouts read back: padding stands next to separator pictures,
//! where [`crate::pretty::parse`] trims it, so a text laid out in the aligned
//! or spaced mode parses to the same bytes as the plain pretty text.

use vstd::prelude::*;

use crate::layout::{
    aligned_from, cells_from, cells_of, join_lf, laid_out, layout_from, lemma_join_front, lemma_run_len,
    lines_of, lines_rejoin, next_depth, padded, run_len, separator, spaces, FormatMode,
};
use crate::pretty::{glyph_bytes, parse_from, parsed, picture_at, picture_code};
use crate::pretty::shown;
use crate::pretty::pretty_bytes;
use crate::builder::is_name;
use crate::properties::{document_bytes, GroupSpec};
use crate::pretty_roundtrip::{
    group_reads_back, group_text_valid, pretty_document_round_trips, pretty_text_round_trips,
    blank, lemma_glyph, lemma_parse_blank, lemma_shift_occurs, line_ok, line_pretty, lines_pretty,
    no_picture, plain, shown_all, Line,
};
use crate::well_formed::{lemma_ascii_valid, lemma_glyph_valid, lemma_utf8_concat};
use crate::{STX, US};
use vstd::utf8::{decode_utf8, encode_utf8, is_continuation_byte, length_of_first_scalar, pop_first_scalar, valid_first_scalar, valid_utf8};

verus! {

/// No Control Picture of STX in `b`: the reader never enters a quoted scope.
pub open spec fn no_stx_picture(b: Seq<u8>) -> bool {
    forall|k: int| #[trigger] picture_at(b, k) ==> picture_code(b, k) != STX
}

// Equal bytes read alike: `b[i..i+m]` and `c[j..j+m]` hold the same bytes,
// the byte after each cannot continue a picture, and what follows reads
// alike from every state.
proof fn lemma_same_segment(b: Seq<u8>, i: int, c: Seq<u8>, j: int, m: int, k: int)
    requires
        0 <= i,
        0 <= j,
        0 <= k <= m,
        i + m <= b.len(),
        j + m <= c.len(),
        forall|t: int| 0 <= t < m ==> b[i + t] == #[trigger] c[j + t],
        i + m == b.len() || !(0x80 <= b[i + m] <= 0x9F),
        j + m == c.len() || !(0x80 <= c[j + m] <= 0x9F),
        forall|t: int| 0 <= t < m && #[trigger] picture_at(b, i + t) ==> picture_code(b, i + t) != STX,
        forall|ws: Seq<u8>, tr: bool| #[trigger] parse_from(b, i + m, ws, tr) == parse_from(c, j + m, ws, tr),
    ensures
        forall|ws: Seq<u8>, tr: bool| #[trigger] parse_from(b, i + k, ws, tr) == parse_from(c, j + k, ws, tr),
    decreases m - k,
{
    if k < m {
        let p = i + k;
        let q = j + k;
        assert(b[i + k] == c[j + k]);
        let pb = picture_at(b, p);
        let pc = picture_at(c, q);
        if k + 2 < m {
            assert(b[i + (k + 1)] == c[j + (k + 1)]);
            assert(b[i + (k + 2)] == c[j + (k + 2)]);
            assert(pb == pc);
        } else if k + 1 < m {
            assert(b[i + (k + 1)] == c[j + (k + 1)]);
            assert(!pb);
            assert(!pc);
        } else {
            assert(!pb);
            assert(!pc);
        }
        if pb {
            assert(picture_code(b, p) == picture_code(c, q));
            assert(picture_code(b, p) != STX);
            lemma_same_segment(b, i, c, j, m, k + 3);
            assert forall|ws: Seq<u8>, tr: bool| #[trigger] parse_from(b, i + k, ws, tr) == parse_from(
                c,
                j + k,
                ws,
                tr,
            ) by {
                assert(parse_from(b, i + (k + 3), Seq::empty(), true) == parse_from(
                    c,
                    j + (k + 3),
                    Seq::empty(),
                    true,
                ));
            }
        } else {
            lemma_same_segment(b, i, c, j, m, k + 1);
            assert forall|ws: Seq<u8>, tr: bool| #[trigger] parse_from(b, i + k, ws, tr) == parse_from(
                c,
                j + k,
                ws,
                tr,
            ) by {
                assert(parse_from(b, i + (k + 1), Seq::empty(), true) == parse_from(
                    c,
                    j + (k + 1),
                    Seq::empty(),
                    true,
                ));
                assert(parse_from(b, i + (k + 1), ws, true) == parse_from(c, j + (k + 1), ws, true));
                assert(parse_from(b, i + (k + 1), ws.push(b[p]), false) == parse_from(
                    c,
                    j + (k + 1),
                    ws.push(b[p]),
                    false,
                ));
                assert(parse_from(b, i + (k + 1), Seq::empty(), false) == parse_from(
                    c,
                    j + (k + 1),
                    Seq::empty(),
                    false,
                ));
            }
        }
    }
}

// Spaces before a picture are dropped, whatever is pending.
proof fn lemma_parse_pad(c: Seq<u8>, j: int, n: int, ws: Seq<u8>, tr: bool)
    requires
        0 <= j,
        0 <= n,
        forall|t: int| j <= t < j + n ==> #[trigger] c[t] == 0x20,
        picture_at(c, j + n),
        picture_code(c, j + n) != STX,
    ensures
        parse_from(c, j, ws, tr) == seq![picture_code(c, j + n)] + parse_from(
            c,
            j + n + 3,
            Seq::empty(),
            true,
        ),
    decreases n,
{
    if n > 0 {
        assert(c[j] == 0x20);
        assert(!picture_at(c, j));
        if tr {
            lemma_parse_pad(c, j + 1, n - 1, ws, true);
        } else {
            lemma_parse_pad(c, j + 1, n - 1, ws.push(0x20), false);
        }
    }
}

/// Cells from `k` on, joined by the separator picture.
pub open spec fn join_pics(cells: Seq<Seq<u8>>, k: int) -> Seq<u8>
    decreases cells.len() - k,
{
    if k < 0 || k >= cells.len() {
        Seq::empty()
    } else if k == cells.len() - 1 {
        cells[k]
    } else {
        cells[k] + glyph_bytes(US) + join_pics(cells, k + 1)
    }
}

proof fn lemma_join_pics_shift(a: Seq<u8>, r: Seq<Seq<u8>>, k: int)
    requires
        0 <= k <= r.len(),
    ensures
        join_pics(seq![a] + r, k + 1) == join_pics(r, k),
    decreases r.len() - k,
{
    let w = seq![a] + r;
    if k < r.len() {
        assert(w[k + 1] == r[k]);
        if k < r.len() - 1 {
            lemma_join_pics_shift(a, r, k + 1);
        }
    }
}

proof fn lemma_cells_rejoin(l: Seq<u8>, p: int, cur: Seq<u8>, depth: nat, esc: bool)
    requires
        0 <= p <= l.len(),
    ensures
        cells_from(l, p, cur, depth, esc).len() > 0,
        join_pics(cells_from(l, p, cur, depth, esc), 0) == cur + l.subrange(p, l.len() as int),
    decreases l.len() - p,
{
    if p == l.len() {
        assert(cur + l.subrange(p, l.len() as int) =~= cur);
    } else if picture_at(l, p) {
        let code = picture_code(l, p);
        let g = l.subrange(p, p + 3);
        if code == US && depth == 0 && !esc {
            let rest = cells_from(l, p + 3, Seq::empty(), 0, false);
            lemma_cells_rejoin(l, p + 3, Seq::empty(), 0, false);
            lemma_join_pics_shift(cur, rest, 0);
            lemma_glyph(US);
            assert(g =~= glyph_bytes(US));
            let w = seq![cur] + rest;
            assert(w[0] == cur);
            assert(join_pics(w, 0) == cur + glyph_bytes(US) + join_pics(w, 1));
            assert(cur + g + (Seq::<u8>::empty() + l.subrange(p + 3, l.len() as int)) =~= cur
                + l.subrange(p, l.len() as int));
        } else {
            lemma_cells_rejoin(l, p + 3, cur + g, next_depth(depth, code), code == crate::DLE && !esc);
            assert(cur + g + l.subrange(p + 3, l.len() as int) =~= cur + l.subrange(p, l.len() as int));
        }
    } else {
        lemma_cells_rejoin(l, p + 1, cur.push(l[p]), depth, false);
        assert(cur.push(l[p]) + l.subrange(p + 1, l.len() as int) =~= cur + l.subrange(
            p,
            l.len() as int,
        ));
    }
}

/// A line is its cells joined by the separator picture.
proof fn lemma_cells_of_rejoin(l: Seq<u8>)
    ensures
        cells_of(l).len() > 0,
        join_pics(cells_of(l), 0) == l,
{
    lemma_cells_rejoin(l, 0, Seq::empty(), 0, false);
    assert(Seq::<u8>::empty() + l.subrange(0, l.len() as int) =~= l);
}

// A line laid out in columns reads as the line: from cell `k` on, the cells
// joined by separator pictures in `b` and the padded cells in `c` read
// alike from every state.
proof fn lemma_aligned_parse(
    b: Seq<u8>,
    i: int,
    c: Seq<u8>,
    j: int,
    cells: Seq<Seq<u8>>,
    k: int,
    rows: Seq<Seq<Seq<u8>>>,
    sep: Seq<u8>,
)
    requires
        0 <= k < cells.len(),
        0 <= i,
        0 <= j,
        sep == glyph_bytes(US) || sep == seq![0x20u8] + glyph_bytes(US) + seq![0x20u8],
        i + join_pics(cells, k).len() <= b.len(),
        b.subrange(i, i + join_pics(cells, k).len()) == join_pics(cells, k),
        j + aligned_from(cells, k, rows, sep).len() <= c.len(),
        c.subrange(j, j + aligned_from(cells, k, rows, sep).len()) == aligned_from(cells, k, rows, sep),
        i + join_pics(cells, k).len() == b.len() || !(0x80 <= b[i + join_pics(cells, k).len()] <= 0x9F),
        j + aligned_from(cells, k, rows, sep).len() == c.len() || !(0x80 <= c[j + aligned_from(
            cells,
            k,
            rows,
            sep,
        ).len()] <= 0x9F),
        forall|t: int|
            0 <= t < join_pics(cells, k).len() && #[trigger] picture_at(b, i + t) ==> picture_code(
                b,
                i + t,
            ) != STX,
        forall|ws: Seq<u8>, tr: bool| #[trigger]
            parse_from(b, i + join_pics(cells, k).len(), ws, tr) == parse_from(
                c,
                j + aligned_from(cells, k, rows, sep).len(),
                ws,
                tr,
            ),
    ensures
        forall|ws: Seq<u8>, tr: bool| #[trigger] parse_from(b, i, ws, tr) == parse_from(c, j, ws, tr),
    decreases cells.len() - k,
{
    let jp = join_pics(cells, k);
    let al = aligned_from(cells, k, rows, sep);
    let ck = cells[k];
    lemma_shift_occurs(b, i, jp, 0);
    lemma_shift_occurs(c, j, al, 0);
    let m = ck.len() as int;
    if k == cells.len() - 1 {
        assert(jp == ck && al == ck);
        assert forall|t: int| 0 <= t < m implies b[i + t] == #[trigger] c[j + t] by {
            assert(b[i + t] == jp[t]);
            assert(c[j + t] == al[t]);
        }
        lemma_same_segment(b, i, c, j, m, 0);
        assert forall|ws: Seq<u8>, tr: bool| #[trigger] parse_from(b, i, ws, tr) == parse_from(c, j, ws, tr) by {
            assert(parse_from(b, i + 0, ws, tr) == parse_from(c, j + 0, ws, tr));
        }
    } else {
        let g = glyph_bytes(US);
        lemma_glyph(US);
        let jp1 = join_pics(cells, k + 1);
        let al1 = aligned_from(cells, k + 1, rows, sep);
        let w = crate::layout::col_width(rows, k);
        let pd = padded(ck, w);
        let pl = pd.len() as int;
        let q: int = if crate::layout::char_count(ck) < w {
            (w - crate::layout::char_count(ck)) as int
        } else {
            0
        };
        assert(pd =~= ck + spaces(q as nat));
        assert(jp == ck + g + jp1);
        assert(al == pd + sep + al1);
        let i1 = i + m + 3;
        let j1 = j + pd.len() + sep.len();
        // the rest of the line
        lemma_shift_occurs(b, i, jp, m + 3);
        assert(jp.subrange(m + 3, jp.len() as int) =~= jp1);
        lemma_shift_occurs(c, j, al, pl + sep.len());
        assert(al.subrange(pl + sep.len(), al.len() as int) =~= al1);
        assert forall|t: int|
            0 <= t < jp1.len() && #[trigger] picture_at(b, i1 + t) implies picture_code(b, i1 + t) != STX by {
            assert(i1 + t == i + (m + 3 + t));
        }
        assert(i1 + jp1.len() == i + jp.len());
        assert(j1 + al1.len() == j + al.len());
        lemma_aligned_parse(b, i1, c, j1, cells, k + 1, rows, sep);
        // the separator
        let pb = i + m;
        assert(b[pb] == jp[m] && b[pb + 1] == jp[m + 1] && b[pb + 2] == jp[m + 2]);
        assert(picture_at(b, pb));
        assert(picture_code(b, pb) == US);
        let lead: int = if sep.len() == 3 {
            0
        } else {
            1
        };
        let pc = j + pd.len() + lead;
        assert forall|t: int| j + m <= t < pc implies #[trigger] c[t] == 0x20 by {
            assert(c[j + (t - j)] == al[t - j]);
            if t - j < pd.len() {
                assert(al[t - j] == pd[t - j]);
            } else {
                assert(al[t - j] == sep[t - j - pd.len()]);
            }
        }
        assert(c[pc] == al[pd.len() + lead] && c[pc + 1] == al[pd.len() + lead + 1] && c[pc + 2]
            == al[pd.len() + lead + 2]);
        assert(al[pd.len() + lead] == sep[lead]);
        assert(al[pd.len() + lead + 1] == sep[lead + 1]);
        assert(al[pd.len() + lead + 2] == sep[lead + 2]);
        assert(picture_at(c, pc));
        assert(picture_code(c, pc) == US);
        assert forall|ws: Seq<u8>, tr: bool| #[trigger] parse_from(b, i + m, ws, tr) == parse_from(
            c,
            j + m,
            ws,
            tr,
        ) by {
            lemma_parse_pad(c, j + m, pc - (j + m), ws, tr);
            if lead == 1 {
                assert(c[j + (pl + 4)] == al[pl + 4]);
                assert(al[pl + 4] == sep[4]);
                assert(c[pc + 3] == 0x20);
                lemma_parse_blank(c, pc + 3, j1);
            }
            assert(parse_from(b, i1, Seq::empty(), true) == parse_from(c, j1, Seq::empty(), true));
        }
        // the cell itself
        assert forall|t: int| 0 <= t < m implies b[i + t] == #[trigger] c[j + t] by {
            assert(b[i + t] == jp[t]);
            assert(jp[t] == ck[t]);
            assert(c[j + t] == al[t]);
            assert(al[t] == pd[t]);
        }
        assert(c[j + m] == al[m]);
        if q > 0 {
            assert(al[m] == pd[m]);
        } else {
            assert(al[m] == sep[0]);
        }
        assert forall|t: int| 0 <= t < m && #[trigger] picture_at(b, i + t) implies picture_code(b, i + t) != STX by {}
        lemma_same_segment(b, i, c, j, m, 0);
        assert forall|ws: Seq<u8>, tr: bool| #[trigger] parse_from(b, i, ws, tr) == parse_from(c, j, ws, tr) by {
            assert(parse_from(b, i + 0, ws, tr) == parse_from(c, j + 0, ws, tr));
        }
    }
}

/// A line and what the layout makes of it: the line itself, or its cells
/// padded to some column widths.
pub open spec fn line_related(a: Seq<u8>, a2: Seq<u8>, sep: Seq<u8>) -> bool {
    a2 == a || exists|rows: Seq<Seq<Seq<u8>>>| a2 == #[trigger] aligned_from(cells_of(a), 0, rows, sep)
}

proof fn lemma_layout_pairs(ls: Seq<Seq<u8>>, i: int, sep: Seq<u8>)
    requires
        0 <= i <= ls.len(),
    ensures
        layout_from(ls, i, sep).len() == ls.len() - i,
        forall|t: int|
            0 <= t < ls.len() - i ==> line_related(ls[i + t], #[trigger] layout_from(ls, i, sep)[t], sep),
    decreases ls.len() - i,
{
    if i < ls.len() {
        lemma_run_len(ls, i);
        let n = run_len(ls, i);
        let out = layout_from(ls, i, sep);
        if n == 0 {
            lemma_layout_pairs(ls, i + 1, sep);
            let rest = layout_from(ls, i + 1, sep);
            assert(out == seq![ls[i]] + rest);
            assert forall|t: int| 0 <= t < ls.len() - i implies line_related(ls[i + t], #[trigger] out[t], sep) by {
                if t > 0 {
                    assert(out[t] == rest[t - 1]);
                    assert(ls[i + t] == ls[(i + 1) + (t - 1)]);
                }
            }
        } else {
            lemma_layout_pairs(ls, i + n, sep);
            let rest = layout_from(ls, i + n, sep);
            let rows = Seq::new(n, |k: int| cells_of(ls[i + k]));
            let head = Seq::new(n, |k: int| aligned_from(rows[k], 0, rows, sep));
            assert(out == head + rest);
            assert forall|t: int| 0 <= t < ls.len() - i implies line_related(ls[i + t], #[trigger] out[t], sep) by {
                if t < n {
                    assert(out[t] == head[t]);
                    assert(rows[t] == cells_of(ls[i + t]));
                    assert(out[t] == aligned_from(cells_of(ls[i + t]), 0, rows, sep));
                } else {
                    assert(out[t] == rest[t - n]);
                    assert(ls[i + t] == ls[(i + n) + (t - n)]);
                }
            }
        }
    }
}

// Lines joined by LF, and what the layout makes of them, read alike.
proof fn lemma_lines_parse(
    b: Seq<u8>,
    i: int,
    c: Seq<u8>,
    j: int,
    ms: Seq<Seq<u8>>,
    ms2: Seq<Seq<u8>>,
    sep: Seq<u8>,
)
    requires
        0 <= i <= b.len(),
        0 <= j <= c.len(),
        sep == glyph_bytes(US) || sep == seq![0x20u8] + glyph_bytes(US) + seq![0x20u8],
        ms.len() == ms2.len(),
        forall|t: int| 0 <= t < ms.len() ==> line_related(ms[t], #[trigger] ms2[t], sep),
        b.subrange(i, b.len() as int) == join_lf(ms),
        c.subrange(j, c.len() as int) == join_lf(ms2),
        forall|t: int| i <= t && #[trigger] picture_at(b, t) ==> picture_code(b, t) != STX,
    ensures
        forall|ws: Seq<u8>, tr: bool| #[trigger] parse_from(b, i, ws, tr) == parse_from(c, j, ws, tr),
    decreases ms.len(),
{
    if ms.len() == 0 {
        assert(b.subrange(i, b.len() as int).len() == 0);
        assert(c.subrange(j, c.len() as int).len() == 0);
    } else {
        let a = ms[0];
        let a2 = ms2[0];
        let la = a.len() as int;
        let la2 = a2.len() as int;
        let tb = b.subrange(i, b.len() as int);
        let tc = c.subrange(j, c.len() as int);
        if ms.len() == 1 {
            assert(join_lf(ms) == a);
            assert(join_lf(ms2) == a2);
        } else {
            let rest = ms.drop_first();
            let rest2 = ms2.drop_first();
            assert(ms =~= seq![a] + rest);
            assert(ms2 =~= seq![a2] + rest2);
            lemma_join_front(a, rest);
            lemma_join_front(a2, rest2);
            assert(tb == a + seq![0x0au8] + join_lf(rest));
            assert(tc == a2 + seq![0x0au8] + join_lf(rest2));
            assert(b.subrange(i + la + 1, b.len() as int) =~= tb.subrange(la + 1, tb.len() as int));
            assert(tb.subrange(la + 1, tb.len() as int) =~= join_lf(rest));
            assert(c.subrange(j + la2 + 1, c.len() as int) =~= tc.subrange(la2 + 1, tc.len() as int));
            assert(tc.subrange(la2 + 1, tc.len() as int) =~= join_lf(rest2));
            assert forall|t: int| 0 <= t < rest.len() implies line_related(rest[t], #[trigger] rest2[t], sep) by {
                assert(rest[t] == ms[t + 1]);
                assert(rest2[t] == ms2[t + 1]);
            }
            lemma_lines_parse(b, i + la + 1, c, j + la2 + 1, rest, rest2, sep);
            assert(b[i + la] == tb[la]);
            assert(c[j + la2] == tc[la2]);
            assert(!picture_at(b, i + la));
            assert(!picture_at(c, j + la2));
            assert forall|ws: Seq<u8>, tr: bool| #[trigger] parse_from(b, i + la, ws, tr) == parse_from(
                c,
                j + la2,
                ws,
                tr,
            ) by {
                assert(parse_from(b, i + la + 1, Seq::empty(), true) == parse_from(
                    c,
                    j + la2 + 1,
                    Seq::empty(),
                    true,
                ));
            }
        }
        // the first line
        assert(i + la <= b.len());
        assert(j + la2 <= c.len());
        assert(b.subrange(i, i + la) =~= a);
        assert(c.subrange(j, j + la2) =~= a2);
        lemma_shift_occurs(b, i, a, 0);
        lemma_shift_occurs(c, j, a2, 0);
        assert(i + la == b.len() || !(0x80 <= b[i + la] <= 0x9F)) by {
            if i + la < b.len() {
                assert(b[i + la] == tb[la]);
            }
        }
        assert(j + la2 == c.len() || !(0x80 <= c[j + la2] <= 0x9F)) by {
            if j + la2 < c.len() {
                assert(c[j + la2] == tc[la2]);
            }
        }
        if ms.len() == 1 {
            assert(i + la == b.len());
            assert(j + la2 == c.len());
        }
        assert(line_related(a, a2, sep));
        if a2 == a {
            assert forall|t: int| 0 <= t < la implies b[i + t] == #[trigger] c[j + t] by {
                assert(b[i + t] == a[t]);
                assert(c[j + t] == a2[t]);
            }
            lemma_same_segment(b, i, c, j, la, 0);
            assert forall|ws: Seq<u8>, tr: bool| #[trigger] parse_from(b, i, ws, tr) == parse_from(c, j, ws, tr) by {
                assert(parse_from(b, i + 0, ws, tr) == parse_from(c, j + 0, ws, tr));
            }
        } else {
            let rows = choose|rows: Seq<Seq<Seq<u8>>>| a2 == #[trigger] aligned_from(cells_of(a), 0, rows, sep);
            let cells = cells_of(a);
            lemma_cells_of_rejoin(a);
            lemma_aligned_parse(b, i, c, j, cells, 0, rows, sep);
        }
    }
}

/// Laying the pretty text out in columns does not change what it reads
/// back as, as long as it holds no picture of STX (inside a nested scope
/// the reader keeps spaces).
pub proof fn laid_out_parses_alike(b: Seq<u8>, mode: FormatMode)
    requires
        no_stx_picture(b),
    ensures
        parsed(laid_out(b, mode)) == parsed(b),
{
    match mode {
        FormatMode::Compact => {},
        _ => {
            let sep = separator(mode);
            lemma_glyph(US);
            let ls = lines_of(b);
            let ls2 = layout_from(ls, 0, sep);
            let c = join_lf(ls2);
            lines_rejoin(b);
            lemma_layout_pairs(ls, 0, sep);
            assert forall|t: int| 0 <= t < ls.len() implies line_related(ls[t], #[trigger] ls2[t], sep) by {
                assert(ls[0 + t] == ls[t]);
            }
            assert(b.subrange(0, b.len() as int) =~= b);
            assert(c.subrange(0, c.len() as int) =~= c);
            lemma_lines_parse(b, 0, c, 0, ls, ls2, sep);
            assert(parse_from(b, 0, Seq::empty(), true) == parse_from(c, 0, Seq::empty(), true));
        },
    }
}

// Shown text followed by LF holds no picture of STX when the text holds no
// STX and no picture of its own.
proof fn lemma_shown_no_stx(s: Seq<u8>, i: int, x: Seq<u8>)
    requires
        forall|k: int| 0 <= k < x.len() ==> #[trigger] x[k] != STX,
        forall|k: int| 0 <= k < x.len() ==> #[trigger] no_picture(x, k),
        0 <= i,
        i + shown_all(x).len() < s.len(),
        s.subrange(i, i + shown_all(x).len()) == shown_all(x),
        s[i + shown_all(x).len()] == 0x0a,
    ensures
        forall|k: int|
            i <= k < i + shown_all(x).len() && #[trigger] picture_at(s, k) ==> picture_code(s, k) != STX,
    decreases x.len(),
{
    if x.len() > 0 {
        let x0 = x[0];
        let r = x.drop_first();
        let h = shown(x0);
        let sr = shown_all(r);
        let sx = shown_all(x);
        assert(sx == h + sr);
        lemma_shift_occurs(s, i, sx, h.len() as int);
        assert(sx.subrange(h.len() as int, sx.len() as int) =~= sr);
        assert forall|k: int| 0 <= k < r.len() implies #[trigger] r[k] != STX by {
            assert(r[k] == x[k + 1]);
        }
        assert forall|k: int| 0 <= k < r.len() implies #[trigger] no_picture(r, k) by {
            assert(no_picture(x, k + 1));
            if k + 2 < r.len() {
                assert(r[k] == x[k + 1] && r[k + 1] == x[k + 2] && r[k + 2] == x[k + 3]);
            }
        }
        lemma_shown_no_stx(s, i + h.len(), r);
        if x0 < 0x20 {
            lemma_glyph(x0);
            assert(s[i] == sx[0] && s[i + 1] == sx[1] && s[i + 2] == sx[2]);
            assert(sx[0] == h[0] && sx[1] == h[1] && sx[2] == h[2]);
        } else {
            assert(h == seq![x0]);
            assert(s[i] == sx[0]);
            if picture_at(s, i) {
                // the two bytes after a text byte would have to be text too
                assert(s[i + 1] == 0x90);
                if r.len() == 0 {
                    assert(s[i + 1] == 0x0a);
                } else {
                    let r1 = r.drop_first();
                    assert(sr == shown(r[0]) + shown_all(r1));
                    assert(s[i + 1] == sx[1]);
                    assert(sx[1] == sr[0]);
                    if r[0] < 0x20 {
                        lemma_glyph(r[0]);
                    } else {
                        assert(r[0] == 0x90);
                        assert(s[i + 2] == 0x0a || s[i + 2] == sx[2]);
                        if r1.len() == 0 {
                            assert(sr.len() == 1);
                            assert(s[i + 2] == 0x0a);
                        } else {
                            assert(shown_all(r1) == shown(r1[0]) + shown_all(r1.drop_first()));
                            assert(s[i + 2] == sx[2]);
                            assert(sx[2] == sr[1]);
                            assert(sr[1] == shown(r1[0])[0]);
                            if r1[0] < 0x20 {
                                lemma_glyph(r1[0]);
                            } else {
                                assert(no_picture(x, 0));
                                assert(x[1] == r[0] && x[2] == r1[0]);
                            }
                        }
                    }
                }
            }
        }
    }
}

proof fn lemma_line_no_stx(s: Seq<u8>, p: int, l: Line)
    requires
        line_ok(l),
        0 <= p,
        p + line_pretty(l).len() <= s.len(),
        s.subrange(p, p + line_pretty(l).len()) == line_pretty(l),
    ensures
        forall|k: int|
            p <= k < p + line_pretty(l).len() && #[trigger] picture_at(s, k) ==> picture_code(s, k) != STX,
{
    let lp = line_pretty(l);
    let w = l.indent;
    let g = glyph_bytes(l.code);
    let sx = shown_all(l.text);
    lemma_glyph(l.code);
    lemma_shift_occurs(s, p, lp, 0);
    let wl = w.len() as int;
    let q = p + wl + 3;
    lemma_shift_occurs(s, p, lp, wl + 3);
    assert(lp.subrange(wl + 3, lp.len() as int) =~= sx + seq![0x0au8]);
    assert(s.subrange(q, q + sx.len()) =~= sx) by {
        assert forall|t: int| 0 <= t < sx.len() implies s.subrange(q, q + sx.len())[t] == sx[t] by {
            assert(s[q + t] == lp[wl + 3 + t]);
        }
    }
    assert(s[q + sx.len()] == lp[wl + 3 + sx.len()]);
    assert forall|k: int| 0 <= k < l.text.len() implies #[trigger] l.text[k] != STX by {}
    assert forall|k: int| 0 <= k < l.text.len() implies #[trigger] no_picture(l.text, k) by {}
    lemma_shown_no_stx(s, q, l.text);
    assert forall|k: int|
        p <= k < p + lp.len() && #[trigger] picture_at(s, k) implies picture_code(s, k) != STX by {
        let t = k - p;
        assert(s[k] == lp[t]);
        if t < w.len() {
            assert(lp[t] == w[t]);
            assert(w[t] == 0x20 || w[t] == 0x09);
        } else if t == w.len() {
            assert(s[k + 2] == lp[t + 2]);
        } else if t < w.len() + 3 {
            assert(lp[t] == g[t - w.len()]);
        } else if t == lp.len() - 1 {
            assert(lp[t] == 0x0a);
        }
    }
}

proof fn lemma_lines_no_stx(s: Seq<u8>, p: int, ls: Seq<Line>)
    requires
        forall|k: int| 0 <= k < ls.len() ==> line_ok(#[trigger] ls[k]),
        0 <= p,
        p + lines_pretty(ls).len() == s.len(),
        s.subrange(p, s.len() as int) == lines_pretty(ls),
    ensures
        forall|k: int| p <= k && #[trigger] picture_at(s, k) ==> picture_code(s, k) != STX,
    decreases ls.len(),
{
    if ls.len() > 0 {
        let l = ls[0];
        let rest = ls.drop_first();
        let lp = line_pretty(l);
        assert(lines_pretty(ls) == lp + lines_pretty(rest));
        assert(s.subrange(p, p + lp.len()) =~= lp) by {
            assert forall|t: int| 0 <= t < lp.len() implies s.subrange(p, p + lp.len())[t] == lp[t] by {
                assert(s.subrange(p, s.len() as int)[t] == s[p + t]);
            }
        }
        assert(s.subrange(p + lp.len(), s.len() as int) =~= lines_pretty(rest)) by {
            assert forall|t: int| 0 <= t < lines_pretty(rest).len() implies s.subrange(
                p + lp.len(),
                s.len() as int,
            )[t] == lines_pretty(rest)[t] by {
                assert(s.subrange(p, s.len() as int)[lp.len() + t] == s[p + lp.len() + t]);
            }
        }
        lemma_line_no_stx(s, p, l);
        assert forall|k: int| 0 <= k < rest.len() implies line_ok(#[trigger] rest[k]) by {
            assert(rest[k] == ls[k + 1]);
        }
        lemma_lines_no_stx(s, p + lp.len(), rest);
    }
}

// Well-formed text cut where a character starts is well-formed on both
// sides.
proof fn lemma_split_valid(a: Seq<u8>, t: Seq<u8>)
    requires
        valid_utf8(a + t),
        t.len() == 0 || !is_continuation_byte(t[0]),
    ensures
        valid_utf8(a),
        valid_utf8(t),
    decreases a.len(),
{
    let x = a + t;
    if a.len() == 0 {
        assert(x =~= t);
    } else {
        let n = length_of_first_scalar(x);
        assert(valid_first_scalar(x));
        assert forall|k: int| 0 <= k < a.len() implies x[k] == a[k] by {}
        if t.len() > 0 {
            assert(x[a.len() as int] == t[0]);
        }
        assert(n <= a.len());
        assert(valid_first_scalar(a));
        assert(length_of_first_scalar(a) == n);
        assert(pop_first_scalar(x) =~= pop_first_scalar(a) + t);
        lemma_split_valid(pop_first_scalar(a), t);
    }
}

// A one-byte or three-byte character in front of well-formed text.
proof fn lemma_pop_front(h: Seq<u8>, t: Seq<u8>)
    requires
        valid_utf8(h + t),
        h == seq![0x0au8] || h == glyph_bytes(US),
    ensures
        valid_utf8(t),
{
    lemma_glyph(US);
    let x = h + t;
    assert(x.len() > 0);
    assert(valid_first_scalar(x));
    assert(x[0] == h[0]);
    assert(length_of_first_scalar(x) == h.len());
    assert(pop_first_scalar(x) =~= t);
}

proof fn lemma_sep_valid(sep: Seq<u8>)
    requires
        sep == glyph_bytes(US) || sep == seq![0x20u8] + glyph_bytes(US) + seq![0x20u8],
    ensures
        valid_utf8(sep),
{
    lemma_glyph_valid(US);
    if sep != glyph_bytes(US) {
        lemma_ascii_valid(seq![0x20u8]);
        lemma_utf8_concat(seq![0x20u8], glyph_bytes(US));
        lemma_utf8_concat(seq![0x20u8] + glyph_bytes(US), seq![0x20u8]);
    }
}

proof fn lemma_aligned_valid(cells: Seq<Seq<u8>>, k: int, rows: Seq<Seq<Seq<u8>>>, sep: Seq<u8>)
    requires
        0 <= k < cells.len(),
        valid_utf8(join_pics(cells, k)),
        valid_utf8(sep),
    ensures
        valid_utf8(aligned_from(cells, k, rows, sep)),
    decreases cells.len() - k,
{
    if k < cells.len() - 1 {
        let ck = cells[k];
        let g = glyph_bytes(US);
        lemma_glyph(US);
        let jp1 = join_pics(cells, k + 1);
        assert(join_pics(cells, k) =~= ck + (g + jp1));
        assert((g + jp1)[0] == 0xE2);
        lemma_split_valid(ck, g + jp1);
        lemma_pop_front(g, jp1);
        lemma_aligned_valid(cells, k + 1, rows, sep);
        let w = crate::layout::col_width(rows, k);
        let q: nat = if crate::layout::char_count(ck) < w {
            (w - crate::layout::char_count(ck)) as nat
        } else {
            0
        };
        assert(padded(ck, w) =~= ck + spaces(q));
        assert forall|t: int| 0 <= t < spaces(q).len() implies #[trigger] spaces(q)[t] < 0x80 by {}
        lemma_ascii_valid(spaces(q));
        lemma_utf8_concat(ck, spaces(q));
        lemma_utf8_concat(padded(ck, w), sep);
        lemma_utf8_concat(padded(ck, w) + sep, aligned_from(cells, k + 1, rows, sep));
    }
}

proof fn lemma_lines_valid(ms: Seq<Seq<u8>>, ms2: Seq<Seq<u8>>, sep: Seq<u8>)
    requires
        sep == glyph_bytes(US) || sep == seq![0x20u8] + glyph_bytes(US) + seq![0x20u8],
        ms.len() == ms2.len(),
        forall|t: int| 0 <= t < ms.len() ==> line_related(ms[t], #[trigger] ms2[t], sep),
        valid_utf8(join_lf(ms)),
    ensures
        valid_utf8(join_lf(ms2)),
    decreases ms.len(),
{
    if ms.len() > 0 {
        let a = ms[0];
        let a2 = ms2[0];
        let lf = seq![0x0au8];
        if ms.len() > 1 {
            let rest = ms.drop_first();
            let rest2 = ms2.drop_first();
            assert(ms =~= seq![a] + rest);
            assert(ms2 =~= seq![a2] + rest2);
            lemma_join_front(a, rest);
            lemma_join_front(a2, rest2);
            assert(join_lf(ms) =~= a + (lf + join_lf(rest)));
            assert((lf + join_lf(rest))[0] == 0x0a);
            lemma_split_valid(a, lf + join_lf(rest));
            lemma_pop_front(lf, join_lf(rest));
            assert forall|t: int| 0 <= t < rest.len() implies line_related(rest[t], #[trigger] rest2[t], sep) by {
                assert(rest[t] == ms[t + 1]);
                assert(rest2[t] == ms2[t + 1]);
            }
            lemma_lines_valid(rest, rest2, sep);
        } else {
            assert(join_lf(ms) == a);
            assert(join_lf(ms2) == a2);
        }
        assert(valid_utf8(a));
        assert(line_related(a, a2, sep));
        if a2 != a {
            let rows = choose|rows: Seq<Seq<Seq<u8>>>| a2 == #[trigger] aligned_from(cells_of(a), 0, rows, sep);
            lemma_cells_of_rejoin(a);
            lemma_sep_valid(sep);
            lemma_aligned_valid(cells_of(a), 0, rows, sep);
        }
        if ms.len() > 1 {
            let rest2 = ms2.drop_first();
            lemma_ascii_valid(lf);
            lemma_utf8_concat(a2, lf);
            lemma_utf8_concat(a2 + lf, join_lf(rest2));
            assert(join_lf(ms2) =~= a2 + lf + join_lf(rest2));
        }
    }
}

/// Laying well-formed text out in columns keeps it well-formed: the
/// padding is spaces, and cells are cut where a character starts.
pub proof fn laid_out_valid(b: Seq<u8>, mode: FormatMode)
    requires
        valid_utf8(b),
    ensures
        valid_utf8(laid_out(b, mode)),
{
    match mode {
        FormatMode::Compact => {},
        _ => {
            let sep = separator(mode);
            lemma_glyph(US);
            let ls = lines_of(b);
            let ls2 = layout_from(ls, 0, sep);
            lines_rejoin(b);
            lemma_layout_pairs(ls, 0, sep);
            assert forall|t: int| 0 <= t < ls.len() implies line_related(ls[t], #[trigger] ls2[t], sep) by {
                assert(ls[0 + t] == ls[t]);
            }
            lemma_lines_valid(ls, ls2, sep);
        },
    }
}

/// What the builder writes as a document comes back through the aligned and
/// spaced layouts too: under the conditions of the plain round trip, the
/// laid-out text is well-formed, and `parse` of it gives the document back.
pub proof fn laid_out_round_trips(
    ind: Seq<u8>,
    file: Option<Seq<u8>>,
    groups: Seq<GroupSpec>,
    mode: FormatMode,
)
    requires
        blank(ind),
        file matches Some(f) ==> is_name(f) && plain(f) && valid_utf8(f),
        forall|i: int| 0 <= i < groups.len() ==> group_reads_back(#[trigger] groups[i]),
        forall|i: int| 0 <= i < groups.len() ==> group_text_valid(#[trigger] groups[i]),
    ensures
        valid_utf8(laid_out(pretty_bytes(document_bytes(file, groups), ind), mode)),
        parsed(encode_utf8(decode_utf8(laid_out(pretty_bytes(document_bytes(file, groups), ind), mode))))
            == document_bytes(file, groups),
{
    let b = pretty_bytes(document_bytes(file, groups), ind);
    pretty_text_round_trips(ind, file, groups);
    pretty_document_round_trips(ind, file, groups);
    let ls = crate::pretty_roundtrip::document_lines(ind, file, groups);
    assert(b.subrange(0, b.len() as int) =~= b);
    lemma_lines_no_stx(b, 0, ls);
    assert forall|k: int| #[trigger] picture_at(b, k) implies picture_code(b, k) != STX by {
        if k < 0 {
            assert(!picture_at(b, k));
        }
    }
    laid_out_parses_alike(b, mode);
    laid_out_valid(b, mode);
    vstd::utf8::decode_utf8_encode_utf8(laid_out(b, mode));
}

} // verus!
