//! The pretty form reads back: what [`crate::pretty::format_with`] lays out
//! for a document of tables, [`crate::pretty::parse`] turns back into the same
//! compact bytes, as long as the text it holds survives the layout (no space
//! next to a control code, no Control Picture character of its own, no STX).

use vstd::prelude::*;
use vstd::utf8::{decode_utf8, encode_utf8, valid_utf8};

use crate::builder::{escape, escape_byte, escaped_all, header_bytes, is_name, joined, record_bytes};
use crate::pretty::{break_unless, glyph_of, fields_line, glyph_bytes, gs_glyphs, indent_bytes, parse_from, parsed, picture_at, picture_code, pretty_bytes, pretty_from, shown};
use crate::document::gs_run_end;
use crate::scan::lemma_data_run;
use crate::properties::{
    document_bytes, groups_bytes, names_ok, records_bytes, table_bytes, GroupSpec, lemma_data_run_name, lemma_escape_front, lemma_occurs_index, lemma_occurs_split, occurs_at,
};
use crate::tokenizer::data_run_end;
use crate::well_formed::{
    lemma_ascii_valid, lemma_escape_valid, lemma_glyph_valid, lemma_joined_valid, lemma_shown_all_valid,
    lemma_utf8_concat,
};
use crate::{DLE, EOT, FS, GS, RS, SOH, STX, US};

verus! {

/// Each byte as the pretty form shows it.
pub open spec fn shown_all(x: Seq<u8>) -> Seq<u8>
    decreases x.len(),
{
    if x.len() == 0 {
        Seq::empty()
    } else {
        shown(x[0]) + shown_all(x.drop_first())
    }
}

/// A space at `k` has a byte of text (a space or a byte above it) on either
/// side.
pub open spec fn space_ok(x: Seq<u8>, k: int) -> bool {
    x[k] == 0x20 ==> 0 < k < x.len() - 1 && x[k - 1] >= 0x20 && x[k + 1] >= 0x20
}

/// No Control Picture character (E2 90 80..9F) is encoded at `k`.
pub open spec fn no_picture(x: Seq<u8>, k: int) -> bool {
    k + 2 < x.len() ==> !(x[k] == 0xE2 && x[k + 1] == 0x90 && 0x80 <= x[k + 2] <= 0x9F)
}

/// Text that survives the pretty layout: no STX, no Control Picture
/// character, and every space has a byte of text on either side.
pub open spec fn plain(x: Seq<u8>) -> bool {
    &&& forall|k: int| 0 <= k < x.len() ==> #[trigger] x[k] != STX
    &&& forall|k: int| 0 <= k < x.len() ==> #[trigger] space_ok(x, k)
    &&& forall|k: int| 0 <= k < x.len() ==> #[trigger] no_picture(x, k)
}

/// An indent made of spaces and tabs.
pub open spec fn blank(w: Seq<u8>) -> bool {
    forall|k: int| 0 <= k < w.len() ==> (#[trigger] w[k] == 0x20 || w[k] == 0x09)
}

pub(crate) proof fn lemma_glyph(c: u8)
    requires
        c < 0x20,
    ensures
        glyph_bytes(c) == seq![0xE2u8, 0x90u8, (0x80 + c) as u8],
{
    let v: u32 = (0x2400 + c) as u32;
    assert(0x800 <= v <= 0xFFFF && !(0xD800 <= v <= 0xDFFF));
    assert(0xE0 | ((v >> 12) & 0x0F) as u8 == 0xE2u8) by (bit_vector)
        requires
            0x2400 <= v < 0x2420,
    ;
    assert(0x80 | ((v >> 6) & 0x3F) as u8 == 0x90u8) by (bit_vector)
        requires
            0x2400 <= v < 0x2420,
    ;
    assert(0x80 | (v & 0x3F) as u8 == (0x80 + (v - 0x2400)) as u8) by (bit_vector)
        requires
            0x2400 <= v < 0x2420,
    ;
    assert(glyph_bytes(c) =~= seq![0xE2u8, 0x90u8, (0x80 + c) as u8]);
}

pub(crate) proof fn lemma_shown_all_concat(a: Seq<u8>, b: Seq<u8>)
    ensures
        shown_all(a + b) == shown_all(a) + shown_all(b),
    decreases a.len(),
{
    if a.len() == 0 {
        assert(a + b =~= b);
        assert(shown_all(a) + shown_all(b) =~= shown_all(b));
    } else {
        assert((a + b).drop_first() =~= a.drop_first() + b);
        assert((a + b)[0] == a[0]);
        lemma_shown_all_concat(a.drop_first(), b);
        assert(shown_all(a + b) =~= shown_all(a) + shown_all(b));
    }
}

proof fn lemma_shown_all_one(a: u8)
    ensures
        shown_all(seq![a]) == shown(a),
{
    assert(seq![a].drop_first() =~= Seq::<u8>::empty());
    assert(shown_all(Seq::<u8>::empty()) == Seq::<u8>::empty());
    assert(seq![a][0] == a);
    assert(shown_all(seq![a]) =~= shown(a));
}

proof fn lemma_shown_all_two(a: u8, b: u8)
    ensures
        shown_all(seq![a, b]) == shown(a) + shown(b),
{
    assert(seq![a, b] =~= seq![a] + seq![b]);
    lemma_shown_all_concat(seq![a], seq![b]);
    lemma_shown_all_one(a);
    lemma_shown_all_one(b);
}

pub(crate) proof fn lemma_shown_all_data(x: Seq<u8>)
    requires
        forall|k: int| 0 <= k < x.len() ==> #[trigger] x[k] >= 0x20,
    ensures
        shown_all(x) == x,
    decreases x.len(),
{
    if x.len() > 0 {
        lemma_shown_all_data(x.drop_first());
        assert(shown_all(x) =~= x);
    }
}


// ---- reading the pretty form back ----

pub(crate) proof fn lemma_parse_blank(b: Seq<u8>, i: int, n: int)
    requires
        0 <= i <= n <= b.len(),
        forall|k: int| i <= k < n ==> (#[trigger] b[k] == 0x20 || b[k] == 0x09),
    ensures
        parse_from(b, i, Seq::empty(), true) == parse_from(b, n, Seq::empty(), true),
    decreases n - i,
{
    if i < n {
        assert(!picture_at(b, i));
        lemma_parse_blank(b, i + 1, n);
    }
}

// A run of text bytes `b[i..e]` that ends in a byte other than a space reads
// back as itself, after whatever spaces were pending.
proof fn lemma_parse_run(b: Seq<u8>, i: int, e: int, ws: Seq<u8>)
    requires
        0 <= i < e <= b.len(),
        forall|k: int| i <= k < e ==> #[trigger] b[k] >= 0x20,
        forall|k: int| i <= k < e ==> !#[trigger] picture_at(b, k),
        b[e - 1] != 0x20,
    ensures
        parse_from(b, i, ws, false) == ws + b.subrange(i, e) + parse_from(b, e, Seq::empty(), false),
    decreases e - i,
{
    assert(!picture_at(b, i));
    assert(b[i] >= 0x20);
    if b[i] == 0x20 {
        lemma_parse_run(b, i + 1, e, ws.push(0x20));
        assert(ws.push(0x20) + b.subrange(i + 1, e) =~= ws + b.subrange(i, e));
    } else if i + 1 < e {
        lemma_parse_run(b, i + 1, e, Seq::empty());
        assert(ws + seq![b[i]] + (Seq::<u8>::empty() + b.subrange(i + 1, e) + parse_from(
            b,
            e,
            Seq::empty(),
            false,
        )) =~= ws + b.subrange(i, e) + parse_from(b, e, Seq::empty(), false));
    } else {
        assert(b.subrange(i, e) =~= seq![b[i]]);
    }
}

proof fn lemma_plain_suffix(x: Seq<u8>, r: int)
    requires
        plain(x),
        0 <= r <= x.len(),
        r == 0 || r == x.len() || x[r - 1] < 0x20 || x[r] < 0x20,
    ensures
        plain(x.subrange(r, x.len() as int)),
{
    let t = x.subrange(r, x.len() as int);
    assert forall|k: int| 0 <= k < t.len() implies #[trigger] t[k] != STX by {
        assert(t[k] == x[r + k]);
    }
    assert forall|k: int| 0 <= k < t.len() implies #[trigger] space_ok(t, k) by {
        assert(space_ok(x, r + k));
        assert(t[k] == x[r + k]);
        if t[k] == 0x20 {
            assert(x[r + k - 1] >= 0x20);
            assert(t[k + 1] == x[r + k + 1]);
            if k > 0 {
                assert(t[k - 1] == x[r + k - 1]);
            }
        }
    }
    assert forall|k: int| 0 <= k < t.len() implies #[trigger] no_picture(t, k) by {
        assert(no_picture(x, r + k));
        if k + 2 < t.len() {
            assert(t[k] == x[r + k]);
            assert(t[k + 1] == x[r + k + 1]);
            assert(t[k + 2] == x[r + k + 2]);
        }
    }
}

proof fn lemma_data_run_bounds(x: Seq<u8>, i: int)
    requires
        0 <= i <= x.len(),
    ensures
        i <= crate::tokenizer::data_run_end(x, i) <= x.len(),
        forall|k: int| i <= k < crate::tokenizer::data_run_end(x, i) ==> #[trigger] x[k] >= 0x20,
        crate::tokenizer::data_run_end(x, i) == x.len() || x[crate::tokenizer::data_run_end(x, i)]
            < 0x20,
    decreases x.len() - i,
{
    if i < x.len() && x[i] >= 0x20 {
        lemma_data_run_bounds(x, i + 1);
    }
}

// Shown text followed by LF reads back as the text, and the reader is at
// the start of a line again.
proof fn lemma_parse_shown(b: Seq<u8>, i: int, x: Seq<u8>, trim: bool)
    requires
        plain(x),
        0 <= i,
        i + shown_all(x).len() < b.len(),
        b.subrange(i, i + shown_all(x).len()) == shown_all(x),
        b[i + shown_all(x).len()] == 0x0a,
    ensures
        parse_from(b, i, Seq::empty(), trim) == x + parse_from(
            b,
            i + shown_all(x).len() + 1,
            Seq::empty(),
            true,
        ),
    decreases x.len(), 1int,
{
    if x.len() == 0 {
        assert(b[i] == 0x0a);
        assert(!picture_at(b, i));
        assert(x + parse_from(b, i + 1, Seq::empty(), true) =~= parse_from(b, i + 1, Seq::empty(), true));
    } else if x[0] < 0x20 {
        lemma_parse_shown_control(b, i, x, trim);
    } else {
        lemma_parse_shown_run(b, i, x, trim);
    }
}

proof fn lemma_run_no_picture(b: Seq<u8>, i: int, e: int)
    requires
        0 <= i <= e < b.len(),
        b[e] == 0xE2 || b[e] == 0x0a,
        forall|k: int| i <= k && k + 2 < e ==> !(#[trigger] b[k] == 0xE2 && b[k + 1] == 0x90 && 0x80
            <= b[k + 2] <= 0x9F),
    ensures
        forall|k: int| i <= k < e ==> !#[trigger] picture_at(b, k),
{
    assert forall|k: int| i <= k < e implies !#[trigger] picture_at(b, k) by {
        if k + 2 < e {
            assert(!(b[k] == 0xE2 && b[k + 1] == 0x90 && 0x80 <= b[k + 2] <= 0x9F));
        }
    }
}

pub(crate) proof fn lemma_shift_occurs(b: Seq<u8>, i: int, t: Seq<u8>, r: int)
    requires
        0 <= i,
        0 <= r <= t.len(),
        i + t.len() <= b.len(),
        b.subrange(i, i + t.len()) == t,
    ensures
        b.subrange(i + r, i + t.len()) == t.subrange(r, t.len() as int),
        forall|k: int| 0 <= k < t.len() ==> b[i + k] == #[trigger] t[k],
{
    assert forall|k: int| 0 <= k < t.len() implies b[i + k] == #[trigger] t[k] by {
        assert(b.subrange(i, i + t.len())[k] == b[i + k]);
    }
    assert(b.subrange(i + r, i + t.len()) =~= t.subrange(r, t.len() as int));
}

proof fn lemma_parse_shown_control(b: Seq<u8>, i: int, x: Seq<u8>, trim: bool)
    requires
        plain(x),
        x.len() > 0,
        x[0] < 0x20,
        0 <= i,
        i + shown_all(x).len() < b.len(),
        b.subrange(i, i + shown_all(x).len()) == shown_all(x),
        b[i + shown_all(x).len()] == 0x0a,
    ensures
        parse_from(b, i, Seq::empty(), trim) == x + parse_from(
            b,
            i + shown_all(x).len() + 1,
            Seq::empty(),
            true,
        ),
    decreases x.len(), 0int,
{
    let sx = shown_all(x);
    let c = x[0];
    lemma_glyph(c);
    let rest = x.drop_first();
    let sr = shown_all(rest);
    assert(sx == glyph_bytes(c) + sr);
    lemma_shift_occurs(b, i, sx, 3);
    assert(b[i] == sx[0] && b[i + 1] == sx[1] && b[i + 2] == sx[2]);
    assert(picture_at(b, i));
    assert(picture_code(b, i) == c);
    assert(c != STX);
    lemma_plain_suffix(x, 1);
    assert(x.subrange(1, x.len() as int) =~= rest);
    assert(sx.subrange(3, sx.len() as int) =~= sr);
    lemma_parse_shown(b, i + 3, rest, true);
    assert(seq![c] + (rest + parse_from(b, i + sx.len() + 1, Seq::empty(), true)) =~= x
        + parse_from(b, i + sx.len() + 1, Seq::empty(), true));
}

proof fn lemma_run_text(x: Seq<u8>)
    requires
        plain(x),
        x.len() > 0,
        x[0] >= 0x20,
    ensures
        ({
            let r = crate::tokenizer::data_run_end(x, 0);
            &&& 0 < r <= x.len()
            &&& r == x.len() || x[r] < 0x20
            &&& forall|k: int| 0 <= k < r ==> #[trigger] x[k] >= 0x20
            &&& x[0] != 0x20
            &&& x[r - 1] != 0x20
            &&& forall|k: int| 0 <= k && k + 2 < r ==> !(#[trigger] x[k] == 0xE2 && x[k + 1] == 0x90
                && 0x80 <= x[k + 2] <= 0x9F)
        }),
{
    lemma_data_run_bounds(x, 0);
    let r = crate::tokenizer::data_run_end(x, 0);
    assert(space_ok(x, 0));
    assert(space_ok(x, r - 1));
    assert forall|k: int| 0 <= k && k + 2 < r implies !(#[trigger] x[k] == 0xE2 && x[k + 1] == 0x90
        && 0x80 <= x[k + 2] <= 0x9F) by {
        assert(no_picture(x, k));
    }
}

proof fn lemma_run_in_text(b: Seq<u8>, i: int, x: Seq<u8>, r: int)
    requires
        0 <= i,
        0 < r <= x.len(),
        r == x.len() || x[r] < 0x20,
        forall|k: int| 0 <= k < r ==> #[trigger] x[k] >= 0x20,
        i + shown_all(x).len() < b.len(),
        b.subrange(i, i + shown_all(x).len()) == shown_all(x),
        b[i + shown_all(x).len()] == 0x0a,
    ensures
        shown_all(x) == x.subrange(0, r) + shown_all(x.subrange(r, x.len() as int)),
        forall|k: int| 0 <= k < r ==> b[i + k] == #[trigger] x[k],
        b[i + r] == 0xE2 || b[i + r] == 0x0a,
        b.subrange(i + r, i + shown_all(x).len()) == shown_all(x.subrange(r, x.len() as int)),
{
    let d = x.subrange(0, r);
    let rest = x.subrange(r, x.len() as int);
    let sx = shown_all(x);
    assert(x =~= d + rest);
    lemma_shown_all_concat(d, rest);
    assert forall|k: int| 0 <= k < d.len() implies #[trigger] d[k] >= 0x20 by {
        assert(d[k] == x[k]);
    }
    lemma_shown_all_data(d);
    let sr = shown_all(rest);
    assert(sx == d + sr);
    lemma_shift_occurs(b, i, sx, r);
    assert(sx.subrange(r, sx.len() as int) =~= sr);
    assert forall|k: int| 0 <= k < r implies b[i + k] == #[trigger] x[k] by {
        assert(b[i + k] == sx[k]);
        assert(sx[k] == d[k]);
    }
    if rest.len() > 0 {
        lemma_glyph(rest[0]);
        assert(sr == glyph_bytes(rest[0]) + shown_all(rest.drop_first()));
        assert(b[i + r] == sx[r]);
    }
}

proof fn lemma_parse_shown_run(b: Seq<u8>, i: int, x: Seq<u8>, trim: bool)
    requires
        plain(x),
        x.len() > 0,
        x[0] >= 0x20,
        0 <= i,
        i + shown_all(x).len() < b.len(),
        b.subrange(i, i + shown_all(x).len()) == shown_all(x),
        b[i + shown_all(x).len()] == 0x0a,
    ensures
        parse_from(b, i, Seq::empty(), trim) == x + parse_from(
            b,
            i + shown_all(x).len() + 1,
            Seq::empty(),
            true,
        ),
    decreases x.len(), 0int,
{
    let sx = shown_all(x);
    let r = crate::tokenizer::data_run_end(x, 0);
    let d = x.subrange(0, r);
    let rest = x.subrange(r, x.len() as int);
    let tail = parse_from(b, i + sx.len() + 1, Seq::empty(), true);
    lemma_run_text(x);
    lemma_run_in_text(b, i, x, r);
    assert(parse_from(b, i, Seq::empty(), false) == d + parse_from(b, i + r, Seq::empty(), false))
        by {
        lemma_run_run(b, i, x, r);
    }
    assert(parse_from(b, i, Seq::empty(), trim) == parse_from(b, i, Seq::empty(), false)) by {
        assert(b[i + 0] == x[0]);
        assert(!picture_at(b, i)) by {
            lemma_run_run(b, i, x, r);
        }
    }
    assert(parse_from(b, i + r, Seq::empty(), false) == rest + tail) by {
        lemma_plain_suffix(x, r);
        lemma_parse_shown(b, i + r, rest, false);
    }
    assert(x =~= d + rest);
    assert(d + (rest + tail) =~= x + tail);
}

proof fn lemma_run_run(b: Seq<u8>, i: int, x: Seq<u8>, r: int)
    requires
        0 <= i,
        0 < r <= x.len(),
        x[0] != 0x20,
        x[r - 1] != 0x20,
        forall|k: int| 0 <= k < r ==> #[trigger] x[k] >= 0x20,
        forall|k: int| 0 <= k && k + 2 < r ==> !(#[trigger] x[k] == 0xE2 && x[k + 1] == 0x90 && 0x80
            <= x[k + 2] <= 0x9F),
        forall|k: int| 0 <= k < r ==> b[i + k] == #[trigger] x[k],
        i + r < b.len(),
        b[i + r] == 0xE2 || b[i + r] == 0x0a,
    ensures
        parse_from(b, i, Seq::empty(), false) == x.subrange(0, r) + parse_from(
            b,
            i + r,
            Seq::empty(),
            false,
        ),
        !picture_at(b, i),
{
    assert forall|k: int| i <= k < i + r implies #[trigger] b[k] >= 0x20 by {
        assert(b[i + (k - i)] == x[k - i]);
    }
    assert forall|k: int| i <= k && k + 2 < i + r implies !(#[trigger] b[k] == 0xE2 && b[k + 1]
        == 0x90 && 0x80 <= b[k + 2] <= 0x9F) by {
        assert(b[i + (k - i)] == x[k - i]);
        assert(b[i + (k - i + 1)] == x[k - i + 1]);
        assert(b[i + (k - i + 2)] == x[k - i + 2]);
    }
    lemma_run_no_picture(b, i, i + r);
    assert(b[i + (r - 1)] == x[r - 1]);
    lemma_parse_run(b, i, i + r, Seq::empty());
    assert(b.subrange(i, i + r) =~= x.subrange(0, r)) by {
        assert forall|k: int| 0 <= k < r implies #[trigger] b.subrange(i, i + r)[k] == x.subrange(
            0,
            r,
        )[k] by {
            assert(b[i + k] == x[k]);
        }
    }
    assert(Seq::<u8>::empty() + b.subrange(i, i + r) =~= x.subrange(0, r));
}


/// One line of the pretty form: an indent, a control code, and the text
/// after it.
pub struct Line {
    pub indent: Seq<u8>,
    pub code: u8,
    pub text: Seq<u8>,
}

/// A line as the pretty form lays it out: the indent, the code's picture,
/// the shown text, LF.
pub open spec fn line_pretty(l: Line) -> Seq<u8> {
    l.indent + glyph_bytes(l.code) + shown_all(l.text) + seq![0x0au8]
}

/// A line as compact bytes: the code, then the text.
pub open spec fn line_compact(l: Line) -> Seq<u8> {
    seq![l.code] + l.text
}

/// Lines laid out one after another.
pub open spec fn lines_pretty(ls: Seq<Line>) -> Seq<u8>
    decreases ls.len(),
{
    if ls.len() == 0 {
        Seq::empty()
    } else {
        line_pretty(ls[0]) + lines_pretty(ls.drop_first())
    }
}

/// Lines as compact bytes.
pub open spec fn lines_compact(ls: Seq<Line>) -> Seq<u8>
    decreases ls.len(),
{
    if ls.len() == 0 {
        Seq::empty()
    } else {
        line_compact(ls[0]) + lines_compact(ls.drop_first())
    }
}

/// A line reads back: a blank indent, a control code other than STX, and
/// plain text.
pub open spec fn line_ok(l: Line) -> bool {
    &&& blank(l.indent)
    &&& l.code < 0x20
    &&& l.code != STX
    &&& plain(l.text)
}

proof fn lemma_parse_line(b: Seq<u8>, i: int, l: Line)
    requires
        line_ok(l),
        0 <= i,
        i + line_pretty(l).len() <= b.len(),
        b.subrange(i, i + line_pretty(l).len()) == line_pretty(l),
    ensures
        parse_from(b, i, Seq::empty(), true) == line_compact(l) + parse_from(
            b,
            i + line_pretty(l).len(),
            Seq::empty(),
            true,
        ),
{
    let lp = line_pretty(l);
    let w = l.indent;
    let c = l.code;
    let sx = shown_all(l.text);
    lemma_glyph(c);
    lemma_shift_occurs(b, i, lp, 0);
    let j = i + w.len();
    assert forall|k: int| i <= k < j implies (#[trigger] b[k] == 0x20 || b[k] == 0x09) by {
        assert(b[i + (k - i)] == lp[k - i]);
        assert(lp[k - i] == w[k - i]);
    }
    lemma_parse_blank(b, i, j);
    assert(b[j] == lp[w.len() as int]);
    assert(b[j + 1] == lp[w.len() + 1int]);
    assert(b[j + 2] == lp[w.len() + 2int]);
    assert(picture_at(b, j));
    assert(picture_code(b, j) == c);
    let t = j + 3;
    assert(b.subrange(t, t + sx.len()) =~= sx) by {
        assert forall|k: int| 0 <= k < sx.len() implies #[trigger] b.subrange(t, t + sx.len())[k]
            == sx[k] by {
            assert(b[i + (w.len() + 3 + k)] == lp[w.len() + 3 + k]);
        }
    }
    assert(b[t + sx.len()] == lp[w.len() + 3 + sx.len() as int]);
    lemma_parse_shown(b, t, l.text, true);
    assert(seq![c] + (l.text + parse_from(b, i + lp.len(), Seq::empty(), true)) =~= line_compact(l)
        + parse_from(b, i + lp.len(), Seq::empty(), true));
}

/// Lines laid out in the pretty form read back as their compact bytes.
proof fn lemma_parse_lines(b: Seq<u8>, i: int, ls: Seq<Line>)
    requires
        forall|k: int| 0 <= k < ls.len() ==> line_ok(#[trigger] ls[k]),
        0 <= i,
        i + lines_pretty(ls).len() <= b.len(),
        b.subrange(i, i + lines_pretty(ls).len()) == lines_pretty(ls),
    ensures
        parse_from(b, i, Seq::empty(), true) == lines_compact(ls) + parse_from(
            b,
            i + lines_pretty(ls).len(),
            Seq::empty(),
            true,
        ),
    decreases ls.len(),
{
    if ls.len() == 0 {
        assert(lines_compact(ls) + parse_from(b, i, Seq::empty(), true) =~= parse_from(
            b,
            i,
            Seq::empty(),
            true,
        ));
    } else {
        let lp = line_pretty(ls[0]);
        let rp = lines_pretty(ls.drop_first());
        assert(lines_pretty(ls) == lp + rp);
        lemma_shift_occurs(b, i, lp + rp, lp.len() as int);
        assert((lp + rp).subrange(lp.len() as int, (lp + rp).len() as int) =~= rp);
        assert(b.subrange(i, i + lp.len()) =~= lp) by {
            assert forall|k: int| 0 <= k < lp.len() implies #[trigger] b.subrange(i, i + lp.len())[k]
                == lp[k] by {
                assert(b[i + k] == (lp + rp)[k]);
            }
        }
        assert(line_ok(ls[0]));
        lemma_parse_line(b, i, ls[0]);
        assert forall|k: int| 0 <= k < ls.drop_first().len() implies line_ok(
            #[trigger] ls.drop_first()[k],
        ) by {
            assert(ls.drop_first()[k] == ls[k + 1]);
            assert(line_ok(ls[k + 1]));
        }
        lemma_parse_lines(b, i + lp.len(), ls.drop_first());
        assert(line_compact(ls[0]) + (lines_compact(ls.drop_first()) + parse_from(
            b,
            i + lines_pretty(ls).len(),
            Seq::empty(),
            true,
        )) =~= lines_compact(ls) + parse_from(b, i + lines_pretty(ls).len(), Seq::empty(), true));
    }
}


// ---- laying the compact bytes out ----

proof fn lemma_fields_escape(s: Seq<u8>, p: int, v: Seq<u8>)
    requires
        occurs_at(s, p, escape(v)),
    ensures
        ({
            let q = p + escape(v).len();
            fields_line(s, p) == (shown_all(escape(v)) + fields_line(s, q).0, fields_line(s, q).1)
        }),
    decreases v.len(),
{
    let q = p + escape(v).len();
    if v.len() == 0 {
        assert(shown_all(escape(v)) + fields_line(s, q).0 =~= fields_line(s, q).0);
    } else {
        lemma_escape_front(v);
        let e0 = escape_byte(v[0]);
        let er = escape(v.drop_first());
        lemma_occurs_split(s, p, e0, er);
        lemma_occurs_index(s, p, e0, 0);
        lemma_fields_escape(s, p + e0.len(), v.drop_first());
        lemma_shown_all_concat(e0, er);
        if v[0] < 0x20 {
            lemma_occurs_index(s, p, e0, 1);
            lemma_shown_all_two(DLE, v[0]);
            assert(shown_all(e0) =~= glyph_bytes(DLE) + shown(v[0]));
        } else {
            lemma_shown_all_one(v[0]);
            assert(shown_all(e0) =~= seq![v[0]]);
        }
        assert(shown_all(escape(v)) + fields_line(s, q).0 =~= shown_all(e0) + (shown_all(er)
            + fields_line(s, q).0));
    }
}

proof fn lemma_fields_joined(s: Seq<u8>, p: int, fs: Seq<Seq<u8>>)
    requires
        occurs_at(s, p, joined(escaped_all(fs))),
    ensures
        ({
            let q = p + joined(escaped_all(fs)).len();
            fields_line(s, p) == (
                shown_all(joined(escaped_all(fs))) + fields_line(s, q).0,
                fields_line(s, q).1,
            )
        }),
    decreases fs.len(),
{
    let parts = escaped_all(fs);
    let q = p + joined(parts).len();
    if fs.len() == 0 {
        assert(shown_all(joined(parts)) + fields_line(s, q).0 =~= fields_line(s, q).0);
    } else if fs.len() == 1 {
        assert(joined(parts) == parts[0]);
        lemma_fields_escape(s, p, fs[0]);
    } else {
        let front = fs.drop_last();
        assert(escaped_all(front) =~= parts.drop_last());
        let j1 = joined(parts.drop_last());
        let last = parts.last();
        lemma_occurs_split(s, p, j1 + seq![US], last);
        lemma_occurs_split(s, p, j1, seq![US]);
        lemma_occurs_index(s, p + j1.len(), seq![US], 0);
        lemma_fields_joined(s, p, front);
        lemma_fields_escape(s, p + j1.len() + 1, fs.last());
        lemma_shown_all_concat(j1 + seq![US], last);
        lemma_shown_all_concat(j1, seq![US]);
        lemma_shown_all_one(US);
        assert(shown_all(seq![US]) =~= glyph_bytes(US));
        assert(shown_all(joined(parts)) + fields_line(s, q).0 =~= shown_all(j1) + (glyph_bytes(US)
            + (shown_all(last) + fields_line(s, q).0)));
    }
}

/// A byte that ends a header or record line.
pub open spec fn line_end(s: Seq<u8>, q: int) -> bool {
    q == s.len() || (0 <= q < s.len() && (s[q] == RS || s[q] == GS || s[q] == SOH || s[q] == FS
        || s[q] == EOT))
}

proof fn lemma_record_line(s: Seq<u8>, ind: Seq<u8>, p: int, d: nat, c: u8, fs: Seq<Seq<u8>>)
    requires
        c == RS || c == SOH,
        occurs_at(s, p, seq![c] + joined(escaped_all(fs))),
        line_end(s, p + 1 + joined(escaped_all(fs)).len()),
    ensures
        ({
            let x = joined(escaped_all(fs));
            let q = p + 1 + x.len();
            pretty_from(s, ind, p, d, true) == line_pretty(
                Line { indent: indent_bytes(ind, d + 1), code: c, text: x },
            ) + pretty_from(s, ind, q, d, true)
        }),
{
    let x = joined(escaped_all(fs));
    let q = p + 1 + x.len();
    lemma_occurs_split(s, p, seq![c], x);
    lemma_occurs_index(s, p, seq![c], 0);
    lemma_fields_joined(s, p + 1, fs);
    assert(fields_line(s, q) == (Seq::<u8>::empty(), q));
    assert(shown_all(x) + Seq::<u8>::empty() =~= shown_all(x));
    assert(fields_line(s, p + 1) == (shown_all(x), q));
}


proof fn lemma_lines_concat(a: Seq<Line>, b: Seq<Line>)
    ensures
        lines_pretty(a + b) == lines_pretty(a) + lines_pretty(b),
        lines_compact(a + b) == lines_compact(a) + lines_compact(b),
    decreases a.len(),
{
    if a.len() == 0 {
        assert(a + b =~= b);
        assert(lines_pretty(a) + lines_pretty(b) =~= lines_pretty(b));
        assert(lines_compact(a) + lines_compact(b) =~= lines_compact(b));
    } else {
        assert((a + b).drop_first() =~= a.drop_first() + b);
        assert((a + b)[0] == a[0]);
        lemma_lines_concat(a.drop_first(), b);
        assert(lines_pretty(a + b) =~= lines_pretty(a) + lines_pretty(b));
        assert(lines_compact(a + b) =~= lines_compact(a) + lines_compact(b));
    }
}

proof fn lemma_lines_one(l: Line)
    ensures
        lines_pretty(seq![l]) == line_pretty(l),
        lines_compact(seq![l]) == line_compact(l),
{
    assert(seq![l].drop_first() =~= Seq::<Line>::empty());
    assert(seq![l][0] == l);
    assert(lines_pretty(Seq::<Line>::empty()) == Seq::<u8>::empty());
    assert(lines_compact(Seq::<Line>::empty()) == Seq::<u8>::empty());
    assert(lines_pretty(seq![l]) =~= line_pretty(l));
    assert(lines_compact(seq![l]) =~= line_compact(l));
}

/// The lines of records at depth `d`.
pub open spec fn record_lines(ind: Seq<u8>, d: nat, rows: Seq<Seq<Seq<u8>>>) -> Seq<Line> {
    Seq::new(
        rows.len(),
        |i: int| Line { indent: indent_bytes(ind, d + 1), code: RS, text: joined(escaped_all(rows[i])) },
    )
}

/// The lines of a table at depth `d`: its name, its header if any, its
/// records.
pub open spec fn table_lines(
    ind: Seq<u8>,
    d: nat,
    name: Seq<u8>,
    headers: Option<Seq<Seq<u8>>>,
    rows: Seq<Seq<Seq<u8>>>,
) -> Seq<Line> {
    seq![Line { indent: indent_bytes(ind, d), code: GS, text: name }] + match headers {
        Some(h) => seq![Line { indent: indent_bytes(ind, d + 1), code: SOH, text: joined(escaped_all(h)) }],
        None => Seq::empty(),
    } + record_lines(ind, d, rows)
}

/// The lines of groups at depth `d`. A group with no name, header or
/// records shares the line of the group after it (its GS shows as one more
/// picture in front).
pub open spec fn groups_lines(ind: Seq<u8>, d: nat, groups: Seq<GroupSpec>) -> Seq<Line>
    decreases groups.len(),
{
    if groups.len() == 0 {
        Seq::empty()
    } else if !opens_line(groups[0]) && groups.len() > 1 {
        gs_joined(groups_lines(ind, d, groups.drop_first()))
    } else {
        table_lines(ind, d, groups[0].name, groups[0].headers, groups[0].rows) + groups_lines(
            ind,
            d,
            groups.drop_first(),
        )
    }
}

/// One more GS in front of the first line's text.
pub open spec fn gs_joined(ls: Seq<Line>) -> Seq<Line> {
    if ls.len() == 0 {
        ls
    } else {
        ls.update(0, Line { indent: ls[0].indent, code: ls[0].code, text: seq![GS] + ls[0].text })
    }
}

/// The lines of a document: its file name if any, then its groups (one
/// level deeper under a file name).
pub open spec fn document_lines(ind: Seq<u8>, file: Option<Seq<u8>>, groups: Seq<GroupSpec>) -> Seq<
    Line,
> {
    match file {
        Some(f) => seq![Line { indent: Seq::empty(), code: FS, text: f }] + groups_lines(ind, 1, groups),
        None => groups_lines(ind, 0, groups),
    }
}

pub(crate) proof fn lemma_escape_name(v: Seq<u8>)
    requires
        is_name(v),
    ensures
        escape(v) == v,
    decreases v.len(),
{
    if v.len() > 0 {
        lemma_escape_name(v.drop_last());
        assert(escape(v) =~= v);
    }
}

proof fn lemma_records_pretty(s: Seq<u8>, ind: Seq<u8>, p: int, d: nat, rows: Seq<Seq<Seq<u8>>>)
    requires
        occurs_at(s, p, records_bytes(rows)),
        line_end(s, p + records_bytes(rows).len()),
    ensures
        pretty_from(s, ind, p, d, true) == lines_pretty(record_lines(ind, d, rows)) + pretty_from(
            s,
            ind,
            p + records_bytes(rows).len(),
            d,
            true,
        ),
        lines_compact(record_lines(ind, d, rows)) == records_bytes(rows),
    decreases rows.len(),
{
    let ls = record_lines(ind, d, rows);
    let q = p + records_bytes(rows).len();
    if rows.len() == 0 {
        assert(ls =~= Seq::<Line>::empty());
        assert(lines_pretty(ls) + pretty_from(s, ind, q, d, true) =~= pretty_from(s, ind, q, d, true));
    } else {
        let rest = rows.drop_first();
        let r0 = record_bytes(rows[0]);
        lemma_occurs_split(s, p, r0, records_bytes(rest));
        if rest.len() > 0 {
            lemma_occurs_split(s, p + r0.len(), record_bytes(rest[0]), records_bytes(rest.drop_first()));
            lemma_occurs_index(s, p + r0.len(), record_bytes(rest[0]), 0);
        }
        assert(line_end(s, p + r0.len()));
        lemma_record_line(s, ind, p, d, RS, rows[0]);
        lemma_records_pretty(s, ind, p + r0.len(), d, rest);
        assert(ls.drop_first() =~= record_lines(ind, d, rest));
        assert(lines_pretty(ls) + pretty_from(s, ind, q, d, true) =~= line_pretty(ls[0]) + (
        lines_pretty(record_lines(ind, d, rest)) + pretty_from(s, ind, q, d, true)));
        assert(lines_compact(ls) =~= records_bytes(rows));
    }
}


proof fn lemma_gs_line(s: Seq<u8>, ind: Seq<u8>, p: int, d: nat, name: Seq<u8>)
    requires
        is_name(name),
        occurs_at(s, p, seq![GS] + name),
        line_end(s, p + 1 + name.len()),
        name.len() > 0 || p + 1 == s.len() || s[p + 1] != GS,
    ensures
        pretty_from(s, ind, p, d, true) == line_pretty(
            Line { indent: indent_bytes(ind, d), code: GS, text: name },
        ) + pretty_from(s, ind, p + 1 + name.len(), d, true),
{
    let e = p + 1 + name.len();
    lemma_occurs_split(s, p, seq![GS], name);
    lemma_occurs_index(s, p, seq![GS], 0);
    if name.len() > 0 {
        lemma_occurs_index(s, p + 1, name, 0);
    }
    assert(gs_run_end(s, p + 1) == p + 1);
    assert(gs_run_end(s, p) == p + 1);
    lemma_data_run_name(s, p + 1, name);
    assert(data_run_end(s, e) == e);
    assert(s.subrange(p + 1, e) =~= name);
    assert(gs_glyphs(1) =~= glyph_bytes(GS)) by {
        assert(gs_glyphs(0) == Seq::<u8>::empty());
    }
    assert forall|k: int| 0 <= k < name.len() implies #[trigger] name[k] >= 0x20 by {}
    lemma_shown_all_data(name);
    assert(pretty_from(s, ind, p, d, true) =~= line_pretty(
        Line { indent: indent_bytes(ind, d), code: GS, text: name },
    ) + pretty_from(s, ind, e, d, true));
}

proof fn lemma_table_pretty(
    s: Seq<u8>,
    ind: Seq<u8>,
    p: int,
    d: nat,
    name: Seq<u8>,
    headers: Option<Seq<Seq<u8>>>,
    rows: Seq<Seq<Seq<u8>>>,
)
    requires
        is_name(name),
        name.len() > 0 || headers is Some || rows.len() > 0 || p + table_bytes(
            name,
            headers,
            rows,
        ).len() == s.len() || (p + table_bytes(name, headers, rows).len() < s.len() && s[p
            + table_bytes(name, headers, rows).len()] == EOT),
        names_ok(headers),
        occurs_at(s, p, table_bytes(name, headers, rows)),
        line_end(s, p + table_bytes(name, headers, rows).len()),
    ensures
        pretty_from(s, ind, p, d, true) == lines_pretty(table_lines(ind, d, name, headers, rows))
            + pretty_from(s, ind, p + table_bytes(name, headers, rows).len(), d, true),
        lines_compact(table_lines(ind, d, name, headers, rows)) == table_bytes(name, headers, rows),
{
    let tb = table_bytes(name, headers, rows);
    let q = p + tb.len();
    let hb = match headers {
        Some(h) => header_bytes(h),
        None => Seq::<u8>::empty(),
    };
    let hl = match headers {
        Some(h) => seq![Line { indent: indent_bytes(ind, d + 1), code: SOH, text: joined(escaped_all(h)) }],
        None => Seq::<Line>::empty(),
    };
    let rb = records_bytes(rows);
    let rl = record_lines(ind, d, rows);
    let gl = Line { indent: indent_bytes(ind, d), code: GS, text: name };
    assert(tb =~= seq![GS] + name + hb + rb);
    let p1 = p + 1 + name.len();
    let p2 = p1 + hb.len();
    lemma_occurs_split(s, p, seq![GS] + name + hb, rb);
    lemma_occurs_split(s, p, seq![GS] + name, hb);
    // the byte after the name ends its line
    assert(line_end(s, p1)) by {
        if hb.len() > 0 {
            lemma_occurs_index(s, p1, hb, 0);
        } else if rb.len() > 0 {
            lemma_occurs_index(s, p2, rb, 0);
            assert(rows.len() > 0);
            assert(rb[0] == RS);
        }
    }
    assert(name.len() > 0 || p + 1 == s.len() || s[p + 1] != GS) by {
        if name.len() == 0 {
            if hb.len() > 0 {
                lemma_occurs_index(s, p1, hb, 0);
            } else if rb.len() > 0 {
                lemma_occurs_index(s, p2, rb, 0);
                assert(rb[0] == RS);
            }
        }
    }
    lemma_gs_line(s, ind, p, d, name);
    assert(line_end(s, p2)) by {
        if rb.len() > 0 {
            lemma_occurs_index(s, p2, rb, 0);
            assert(rows.len() > 0);
            assert(rb[0] == RS);
        }
    }
    // the header line
    assert(pretty_from(s, ind, p1, d, true) == lines_pretty(hl) + pretty_from(s, ind, p2, d, true)
        && lines_compact(hl) == hb) by {
        match headers {
            Some(h) => {
                assert forall|k: int| 0 <= k < h.len() implies escaped_all(h)[k] == h[k] by {
                    lemma_escape_name(h[k]);
                }
                assert(escaped_all(h) =~= h);
                lemma_record_line(s, ind, p1, d, SOH, h);
                lemma_lines_one(hl[0]);
                assert(hl =~= seq![hl[0]]);
            },
            None => {
                assert(lines_pretty(hl) + pretty_from(s, ind, p2, d, true) =~= pretty_from(
                    s,
                    ind,
                    p2,
                    d,
                    true,
                ));
            },
        }
    }
    lemma_records_pretty(s, ind, p2, d, rows);
    lemma_lines_one(gl);
    lemma_lines_concat(seq![gl], hl);
    lemma_lines_concat(seq![gl] + hl, rl);
    assert(table_lines(ind, d, name, headers, rows) == seq![gl] + hl + rl);
    assert(lines_compact(table_lines(ind, d, name, headers, rows)) =~= tb);
    assert(pretty_from(s, ind, p, d, true) =~= lines_pretty(table_lines(ind, d, name, headers, rows))
        + pretty_from(s, ind, q, d, true));
}


/// A group the pretty form lays out and reads back: a plain name, header
/// names that are plain text, and records whose text is plain.
pub open spec fn group_reads_back(g: GroupSpec) -> bool {
    &&& is_name(g.name)
    &&& plain(g.name)
    &&& names_ok(g.headers)
    &&& (g.headers matches Some(h) ==> plain(joined(h)))
    &&& forall|j: int| 0 <= j < g.rows.len() ==> plain(joined(escaped_all(#[trigger] g.rows[j])))
}

proof fn lemma_indent_blank(ind: Seq<u8>, n: nat)
    requires
        blank(ind),
    ensures
        blank(indent_bytes(ind, n)),
    decreases n,
{
    if n > 0 {
        lemma_indent_blank(ind, (n - 1) as nat);
        let a = indent_bytes(ind, (n - 1) as nat);
        assert forall|k: int| 0 <= k < indent_bytes(ind, n).len() implies (#[trigger] indent_bytes(
            ind,
            n,
        )[k] == 0x20 || indent_bytes(ind, n)[k] == 0x09) by {
            if k < a.len() {
                assert(indent_bytes(ind, n)[k] == a[k]);
            } else {
                assert(indent_bytes(ind, n)[k] == ind[k - a.len()]);
            }
        }
    }
}

proof fn lemma_lines_ok_concat(a: Seq<Line>, b: Seq<Line>)
    requires
        forall|k: int| 0 <= k < a.len() ==> line_ok(#[trigger] a[k]),
        forall|k: int| 0 <= k < b.len() ==> line_ok(#[trigger] b[k]),
    ensures
        forall|k: int| 0 <= k < (a + b).len() ==> line_ok(#[trigger] (a + b)[k]),
{
    assert forall|k: int| 0 <= k < (a + b).len() implies line_ok(#[trigger] (a + b)[k]) by {
        if k < a.len() {
            assert((a + b)[k] == a[k]);
        } else {
            assert((a + b)[k] == b[k - a.len()]);
        }
    }
}

proof fn lemma_table_lines_ok(ind: Seq<u8>, d: nat, g: GroupSpec)
    requires
        blank(ind),
        group_reads_back(g),
    ensures
        forall|k: int|
            0 <= k < table_lines(ind, d, g.name, g.headers, g.rows).len() ==> line_ok(
                #[trigger] table_lines(ind, d, g.name, g.headers, g.rows)[k],
            ),
{
    lemma_indent_blank(ind, d);
    lemma_indent_blank(ind, d + 1);
    let gl = Line { indent: indent_bytes(ind, d), code: GS, text: g.name };
    let hl = match g.headers {
        Some(h) => seq![Line { indent: indent_bytes(ind, d + 1), code: SOH, text: joined(escaped_all(h)) }],
        None => Seq::<Line>::empty(),
    };
    let rl = record_lines(ind, d, g.rows);
    assert(line_ok(gl));
    assert forall|k: int| 0 <= k < seq![gl].len() implies line_ok(#[trigger] seq![gl][k]) by {}
    assert forall|k: int| 0 <= k < hl.len() implies line_ok(#[trigger] hl[k]) by {
        match g.headers {
            Some(h) => {
                assert forall|m: int| 0 <= m < h.len() implies escaped_all(h)[m] == h[m] by {
                    lemma_escape_name(h[m]);
                }
                assert(escaped_all(h) =~= h);
            },
            None => {},
        }
    }
    assert forall|k: int| 0 <= k < rl.len() implies line_ok(#[trigger] rl[k]) by {
        assert(plain(joined(escaped_all(g.rows[k]))));
    }
    lemma_lines_ok_concat(seq![gl], hl);
    lemma_lines_ok_concat(seq![gl] + hl, rl);
    assert(table_lines(ind, d, g.name, g.headers, g.rows) == seq![gl] + hl + rl);
}

/// A group that shows on a line of its own even when another group follows:
/// it has a name, a header or records.
pub open spec fn opens_line(g: GroupSpec) -> bool {
    g.name.len() > 0 || g.headers is Some || g.rows.len() > 0
}

proof fn lemma_gs_glyphs_front(n: nat)
    ensures
        gs_glyphs(n + 1) == glyph_bytes(GS) + gs_glyphs(n),
    decreases n,
{
    if n == 0 {
        assert(gs_glyphs(0) == Seq::<u8>::empty());
        assert(gs_glyphs(1) =~= glyph_bytes(GS) + gs_glyphs(0));
    } else {
        lemma_gs_glyphs_front((n - 1) as nat);
        assert(gs_glyphs(n + 1) =~= glyph_bytes(GS) + gs_glyphs(n));
    }
}

// A GS right before another one shows as one more picture at the front of
// the line the next one opens.
proof fn lemma_gs_prefix(s: Seq<u8>, ind: Seq<u8>, p: int, d: nat)
    requires
        0 <= p,
        p + 1 < s.len(),
        s[p] == GS,
        s[p + 1] == GS,
    ensures
        indent_bytes(ind, d).len() <= pretty_from(s, ind, p + 1, d, true).len(),
        pretty_from(s, ind, p + 1, d, true).subrange(0, indent_bytes(ind, d).len() as int)
            == indent_bytes(ind, d),
        pretty_from(s, ind, p, d, true) == indent_bytes(ind, d) + glyph_bytes(GS) + pretty_from(
            s,
            ind,
            p + 1,
            d,
            true,
        ).subrange(indent_bytes(ind, d).len() as int, pretty_from(s, ind, p + 1, d, true).len() as int),
{
    crate::document::lemma_gs_run_end(s, p + 2);
    let q = gs_run_end(s, p + 2);
    assert(gs_run_end(s, p + 1) == q);
    assert(gs_run_end(s, p) == q);
    lemma_data_run(s, q);
    let e = data_run_end(s, q);
    let w = indent_bytes(ind, d);
    let t = gs_glyphs((q - p - 1) as nat) + s.subrange(q, e) + seq![0x0au8] + pretty_from(
        s,
        ind,
        e,
        d,
        true,
    );
    lemma_gs_glyphs_front((q - p - 1) as nat);
    assert(pretty_from(s, ind, p + 1, d, true) =~= w + t);
    assert(pretty_from(s, ind, p, d, true) =~= w + glyph_bytes(GS) + t);
    assert((w + t).subrange(0, w.len() as int) =~= w);
    assert((w + t).subrange(w.len() as int, (w + t).len() as int) =~= t);
}

#[verifier::rlimit(50)]
proof fn lemma_gs_joined(ls: Seq<Line>)
    requires
        ls.len() > 0,
        line_ok(ls[0]),
        ls[0].code == GS,
        ls[0].text.len() == 0 || ls[0].text[0] != 0x20,
    ensures
        gs_joined(ls).len() == ls.len(),
        gs_joined(ls)[0].indent == ls[0].indent,
        gs_joined(ls)[0].code == GS,
        gs_joined(ls)[0].text[0] == GS,
        forall|k: int| 0 < k < ls.len() ==> #[trigger] gs_joined(ls)[k] == ls[k],
        line_ok(gs_joined(ls)[0]),
        lines_compact(gs_joined(ls)) == seq![GS] + lines_compact(ls),
        ls[0].indent.len() <= lines_pretty(ls).len(),
        lines_pretty(ls).subrange(0, ls[0].indent.len() as int) == ls[0].indent,
        lines_pretty(gs_joined(ls)) == ls[0].indent + glyph_bytes(GS) + lines_pretty(ls).subrange(
            ls[0].indent.len() as int,
            lines_pretty(ls).len() as int,
        ),
{
    let l = ls[0];
    let x = seq![GS] + l.text;
    let l2 = Line { indent: l.indent, code: l.code, text: x };
    let js = gs_joined(ls);
    assert(js[0] == l2);
    assert(js.drop_first() =~= ls.drop_first());
    assert(x[0] == GS);
    assert(x.drop_first() =~= l.text);
    assert(shown_all(x) == shown(GS) + shown_all(l.text));
    assert(plain(x)) by {
        assert forall|k: int| 0 <= k < x.len() implies #[trigger] x[k] != STX by {
            if k > 0 {
                assert(x[k] == l.text[k - 1]);
            }
        }
        assert forall|k: int| 0 <= k < x.len() implies #[trigger] space_ok(x, k) by {
            if k > 0 {
                assert(x[k] == l.text[k - 1]);
                if x[k] == 0x20 {
                    assert(space_ok(l.text, k - 1));
                    assert(x[k + 1] == l.text[k]);
                    if k > 1 {
                        assert(x[k - 1] == l.text[k - 2]);
                    }
                }
            }
        }
        assert forall|k: int| 0 <= k < x.len() implies #[trigger] no_picture(x, k) by {
            if k > 0 && k + 2 < x.len() {
                assert(no_picture(l.text, k - 1));
                assert(x[k] == l.text[k - 1] && x[k + 1] == l.text[k] && x[k + 2] == l.text[k + 1]);
            }
        }
    }
    let rest = lines_pretty(ls.drop_first());
    let lp = line_pretty(l);
    assert(lines_pretty(ls) == lp + rest);
    assert(lines_pretty(js) == line_pretty(l2) + rest);
    assert(lines_compact(ls) == line_compact(l) + lines_compact(ls.drop_first()));
    assert(lines_compact(js) == line_compact(l2) + lines_compact(ls.drop_first()));
    assert(lines_compact(js) =~= seq![GS] + lines_compact(ls));
    let wl = l.indent.len() as int;
    assert((lp + rest).subrange(0, wl) =~= l.indent);
    assert(line_pretty(l2) + rest =~= l.indent + glyph_bytes(GS) + (lp + rest).subrange(
        wl,
        (lp + rest).len() as int,
    ));
}

proof fn lemma_groups_pretty(s: Seq<u8>, ind: Seq<u8>, p: int, d: nat, groups: Seq<GroupSpec>)
    requires
        blank(ind),
        forall|i: int| 0 <= i < groups.len() ==> group_reads_back(#[trigger] groups[i]),
        occurs_at(s, p, groups_bytes(groups)),
        p + groups_bytes(groups).len() == s.len() || (p + groups_bytes(groups).len() < s.len()
            && s[p + groups_bytes(groups).len()] == EOT),
    ensures
        pretty_from(s, ind, p, d, true) == lines_pretty(groups_lines(ind, d, groups)) + pretty_from(
            s,
            ind,
            p + groups_bytes(groups).len(),
            d,
            true,
        ),
        lines_compact(groups_lines(ind, d, groups)) == groups_bytes(groups),
        forall|k: int|
            0 <= k < groups_lines(ind, d, groups).len() ==> line_ok(
                #[trigger] groups_lines(ind, d, groups)[k],
            ),
        groups.len() > 0 ==> {
            let l = groups_lines(ind, d, groups);
            &&& l.len() > 0
            &&& l[0].indent == indent_bytes(ind, d)
            &&& l[0].code == GS
            &&& (l[0].text.len() == 0 || l[0].text[0] != 0x20)
        },
    decreases groups.len(),
{
    if groups.len() == 0 {
        assert(lines_pretty(groups_lines(ind, d, groups)) == Seq::<u8>::empty());
        assert(Seq::<u8>::empty() + pretty_from(s, ind, p, d, true) =~= pretty_from(s, ind, p, d, true));
    } else {
        let g = groups[0];
        let rest = groups.drop_first();
        let tb = table_bytes(g.name, g.headers, g.rows);
        lemma_occurs_split(s, p, tb, groups_bytes(rest));
        assert forall|i: int| 0 <= i < rest.len() implies group_reads_back(#[trigger] rest[i]) by {
            assert(rest[i] == groups[i + 1]);
        }
        assert(group_reads_back(g));
        if rest.len() > 0 {
            let g1 = rest[0];
            lemma_occurs_split(s, p + tb.len(), table_bytes(g1.name, g1.headers, g1.rows), groups_bytes(
                rest.drop_first(),
            ));
            lemma_occurs_index(s, p + tb.len(), table_bytes(g1.name, g1.headers, g1.rows), 0);
        }
        lemma_groups_pretty(s, ind, p + tb.len(), d, rest);
        if !opens_line(g) && rest.len() > 0 {
            // a bare GS shares the next group's line
            assert(records_bytes(g.rows) == Seq::<u8>::empty());
            assert(tb =~= seq![GS]);
            lemma_occurs_index(s, p, tb, 0);
            let ls = groups_lines(ind, d, rest);
            lemma_gs_prefix(s, ind, p, d);
            lemma_gs_joined(ls);
            assert(groups_lines(ind, d, groups) == gs_joined(ls));
            assert(groups_bytes(groups) == tb + groups_bytes(rest));
            assert forall|k: int| 0 <= k < gs_joined(ls).len() implies line_ok(#[trigger] gs_joined(ls)[k]) by {
                if k > 0 {
                    assert(gs_joined(ls)[k] == ls[k]);
                }
            }
            let x = pretty_from(s, ind, p + groups_bytes(groups).len(), d, true);
            let lp = lines_pretty(ls);
            let wl = indent_bytes(ind, d).len() as int;
            assert((lp + x).subrange(wl, (lp + x).len() as int) =~= lp.subrange(wl, lp.len() as int) + x);
            assert(pretty_from(s, ind, p, d, true) =~= lines_pretty(gs_joined(ls)) + x);
        } else {
            assert(line_end(s, p + tb.len()));
            lemma_table_pretty(s, ind, p, d, g.name, g.headers, g.rows);
            let tl = table_lines(ind, d, g.name, g.headers, g.rows);
            lemma_lines_concat(tl, groups_lines(ind, d, rest));
            lemma_table_lines_ok(ind, d, g);
            lemma_lines_ok_concat(tl, groups_lines(ind, d, rest));
            assert(groups_lines(ind, d, groups) == tl + groups_lines(ind, d, rest));
            assert(pretty_from(s, ind, p, d, true) =~= lines_pretty(groups_lines(ind, d, groups))
                + pretty_from(s, ind, p + groups_bytes(groups).len(), d, true));
            assert((tl + groups_lines(ind, d, rest))[0] == tl[0]);
            assert(tl[0] == Line { indent: indent_bytes(ind, d), code: GS, text: g.name });
            if g.name.len() > 0 {
                assert(space_ok(g.name, 0));
            }
        }
    }
}

/// What the builder writes as a document comes back through the pretty
/// form: laid out with a blank indent and read back, it is the same bytes,
/// when the file name, group names, header names and record text are plain
/// (no STX, no Control Picture character, no space next to a control code
/// or an end).
pub proof fn pretty_document_round_trips(ind: Seq<u8>, file: Option<Seq<u8>>, groups: Seq<GroupSpec>)
    requires
        blank(ind),
        file matches Some(f) ==> is_name(f) && plain(f),
        forall|i: int| 0 <= i < groups.len() ==> group_reads_back(#[trigger] groups[i]),
    ensures
        parsed(pretty_bytes(document_bytes(file, groups), ind)) == document_bytes(file, groups),
        pretty_bytes(document_bytes(file, groups), ind) == lines_pretty(
            document_lines(ind, file, groups),
        ),
        forall|k: int|
            0 <= k < document_lines(ind, file, groups).len() ==> line_ok(
                #[trigger] document_lines(ind, file, groups)[k],
            ),
{
    let s = document_bytes(file, groups);
    let ls = document_lines(ind, file, groups);
    assert(s.subrange(0, s.len() as int) =~= s);
    match file {
        Some(f) => {
            let gb = groups_bytes(groups);
            let e: int = 1 + f.len() as int;
            lemma_occurs_split(s, 0, seq![FS] + f, gb);
            lemma_occurs_split(s, 0, seq![FS], f);
            lemma_occurs_index(s, 0, seq![FS], 0);
            lemma_groups_pretty(s, ind, e, 1, groups);
            lemma_data_run_name(s, 1, f);
            if gb.len() > 0 {
                lemma_occurs_index(s, e, gb, 0);
                assert(gb[0] == GS);
            }
            assert(data_run_end(s, e) == e);
            assert(s.subrange(1, e) =~= f);
            assert forall|k: int| 0 <= k < f.len() implies #[trigger] f[k] >= 0x20 by {}
            lemma_shown_all_data(f);
            let fl = Line { indent: Seq::empty(), code: FS, text: f };
            lemma_lines_one(fl);
            lemma_lines_concat(seq![fl], groups_lines(ind, 1, groups));
            assert(pretty_bytes(s, ind) =~= lines_pretty(ls));
            assert(lines_compact(ls) =~= s);
            assert(line_ok(fl));
            assert forall|k: int| 0 <= k < seq![fl].len() implies line_ok(#[trigger] seq![fl][k]) by {}
            lemma_lines_ok_concat(seq![fl], groups_lines(ind, 1, groups));
        },
        None => {
            lemma_groups_pretty(s, ind, 0, 0, groups);
        },
    }
    let b = lines_pretty(ls);
    assert(b.subrange(0, b.len() as int) =~= b);
    lemma_parse_lines(b, 0, ls);
    assert(lines_compact(ls) + Seq::<u8>::empty() =~= s);
}


/// All the text of a group is well-formed UTF-8: its name, its header
/// names and each field.
pub open spec fn group_text_valid(g: GroupSpec) -> bool {
    &&& valid_utf8(g.name)
    &&& (g.headers matches Some(h) ==> forall|i: int|
        0 <= i < h.len() ==> valid_utf8(#[trigger] h[i]))
    &&& forall|j: int, k: int|
        0 <= j < g.rows.len() && 0 <= k < g.rows[j].len() ==> valid_utf8(#[trigger] g.rows[j][k])
}

spec fn line_valid(l: Line) -> bool {
    &&& blank(l.indent)
    &&& l.code < 0x20
    &&& valid_utf8(l.text)
}

proof fn lemma_blank_ascii(w: Seq<u8>)
    requires
        blank(w),
    ensures
        valid_utf8(w),
{
    assert forall|k: int| 0 <= k < w.len() implies #[trigger] w[k] < 0x80 by {
        assert(w[k] == 0x20 || w[k] == 0x09);
    }
    lemma_ascii_valid(w);
}

proof fn lemma_lines_valid(ls: Seq<Line>)
    requires
        forall|i: int| 0 <= i < ls.len() ==> line_valid(#[trigger] ls[i]),
    ensures
        valid_utf8(lines_pretty(ls)),
    decreases ls.len(),
{
    if ls.len() == 0 {
        assert(valid_utf8(lines_pretty(ls)));
    } else {
        let l = ls[0];
        assert(line_valid(l));
        lemma_blank_ascii(l.indent);
        lemma_glyph_valid(l.code);
        lemma_shown_all_valid(l.text);
        lemma_ascii_valid(seq![0x0au8]);
        lemma_utf8_concat(l.indent, glyph_bytes(l.code));
        lemma_utf8_concat(l.indent + glyph_bytes(l.code), shown_all(l.text));
        lemma_utf8_concat(l.indent + glyph_bytes(l.code) + shown_all(l.text), seq![0x0au8]);
        let rest = ls.drop_first();
        assert forall|i: int| 0 <= i < rest.len() implies line_valid(#[trigger] rest[i]) by {
            assert(rest[i] == ls[i + 1]);
        }
        lemma_lines_valid(rest);
        lemma_utf8_concat(line_pretty(l), lines_pretty(rest));
    }
}

proof fn lemma_fields_valid(parts: Seq<Seq<u8>>)
    requires
        forall|i: int| 0 <= i < parts.len() ==> valid_utf8(#[trigger] parts[i]),
    ensures
        valid_utf8(joined(escaped_all(parts))),
{
    let e = escaped_all(parts);
    assert forall|i: int| 0 <= i < e.len() implies valid_utf8(#[trigger] e[i]) by {
        lemma_escape_valid(parts[i]);
    }
    lemma_joined_valid(e);
}

proof fn lemma_table_valid(ind: Seq<u8>, d: nat, g: GroupSpec)
    requires
        blank(ind),
        group_text_valid(g),
    ensures
        forall|i: int|
            0 <= i < table_lines(ind, d, g.name, g.headers, g.rows).len() ==> line_valid(
                #[trigger] table_lines(ind, d, g.name, g.headers, g.rows)[i],
            ),
{
    let tl = table_lines(ind, d, g.name, g.headers, g.rows);
    let gl = Line { indent: indent_bytes(ind, d), code: GS, text: g.name };
    let hl = match g.headers {
        Some(h) => seq![Line { indent: indent_bytes(ind, d + 1), code: SOH, text: joined(escaped_all(h)) }],
        None => Seq::<Line>::empty(),
    };
    let rl = record_lines(ind, d, g.rows);
    assert(tl == seq![gl] + hl + rl);
    lemma_indent_blank(ind, d);
    lemma_indent_blank(ind, d + 1);
    match g.headers {
        Some(h) => {
            lemma_fields_valid(h);
        },
        None => {},
    }
    assert forall|i: int| 0 <= i < tl.len() implies line_valid(#[trigger] tl[i]) by {
        if i == 0 {
            assert(tl[i] == gl);
        } else if i < 1 + hl.len() {
            assert(tl[i] == hl[0]);
        } else {
            let j = i - 1 - hl.len();
            assert(tl[i] == rl[j]);
            let row = g.rows[j];
            assert forall|k: int| 0 <= k < row.len() implies valid_utf8(#[trigger] row[k]) by {
                assert(valid_utf8(g.rows[j][k]));
            }
            lemma_fields_valid(row);
        }
    }
}

proof fn lemma_groups_valid(ind: Seq<u8>, d: nat, groups: Seq<GroupSpec>)
    requires
        blank(ind),
        forall|i: int| 0 <= i < groups.len() ==> group_text_valid(#[trigger] groups[i]),
    ensures
        forall|k: int|
            0 <= k < groups_lines(ind, d, groups).len() ==> line_valid(
                #[trigger] groups_lines(ind, d, groups)[k],
            ),
    decreases groups.len(),
{
    if groups.len() > 0 {
        let g = groups[0];
        let rest = groups.drop_first();
        assert(group_text_valid(g));
        assert forall|i: int| 0 <= i < rest.len() implies group_text_valid(#[trigger] rest[i]) by {
            assert(rest[i] == groups[i + 1]);
        }
        lemma_groups_valid(ind, d, rest);
        let ls = groups_lines(ind, d, rest);
        if !opens_line(g) && rest.len() > 0 {
            assert(groups_lines(ind, d, groups) == gs_joined(ls));
            if ls.len() > 0 {
                let l0 = ls[0];
                assert(line_valid(l0));
                lemma_ascii_valid(seq![GS]);
                lemma_utf8_concat(seq![GS], l0.text);
                let js = gs_joined(ls);
                assert forall|k: int| 0 <= k < js.len() implies line_valid(#[trigger] js[k]) by {
                    if k > 0 {
                        assert(js[k] == ls[k]);
                    } else {
                        assert(js[0].text == seq![GS] + l0.text);
                    }
                }
            }
        } else {
            let tl = table_lines(ind, d, g.name, g.headers, g.rows);
            lemma_table_valid(ind, d, g);
            assert(groups_lines(ind, d, groups) == tl + ls);
            assert forall|k: int| 0 <= k < (tl + ls).len() implies line_valid(#[trigger] (tl + ls)[k]) by {
                if k < tl.len() {
                    assert((tl + ls)[k] == tl[k]);
                } else {
                    assert((tl + ls)[k] == ls[k - tl.len()]);
                }
            }
        }
    }
}

/// The same through text: when the text the document holds is well-formed
/// UTF-8 (as text given as `&str` is), the string `format_with` returns is
/// exactly the pretty bytes, and `parse` of it gives the document back.
pub proof fn pretty_text_round_trips(ind: Seq<u8>, file: Option<Seq<u8>>, groups: Seq<GroupSpec>)
    requires
        blank(ind),
        file matches Some(f) ==> is_name(f) && plain(f) && valid_utf8(f),
        forall|i: int| 0 <= i < groups.len() ==> group_reads_back(#[trigger] groups[i]),
        forall|i: int| 0 <= i < groups.len() ==> group_text_valid(#[trigger] groups[i]),
    ensures
        valid_utf8(pretty_bytes(document_bytes(file, groups), ind)),
        parsed(encode_utf8(decode_utf8(pretty_bytes(document_bytes(file, groups), ind))))
            == document_bytes(file, groups),
{
    pretty_document_round_trips(ind, file, groups);
    match file {
        Some(f) => {
            let fl = Line { indent: Seq::empty(), code: FS, text: f };
            assert(blank(fl.indent));
            assert forall|i: int| 0 <= i < seq![fl].len() implies line_valid(#[trigger] seq![fl][i]) by {}
            lemma_lines_valid(seq![fl]);
            lemma_groups_valid(ind, 1, groups);
            lemma_lines_valid(groups_lines(ind, 1, groups));
            lemma_lines_concat(seq![fl], groups_lines(ind, 1, groups));
            lemma_utf8_concat(lines_pretty(seq![fl]), lines_pretty(groups_lines(ind, 1, groups)));
        },
        None => {
            lemma_groups_valid(ind, 0, groups);
            lemma_lines_valid(groups_lines(ind, 0, groups));
        },
    }
    vstd::utf8::decode_utf8_encode_utf8(pretty_bytes(document_bytes(file, groups), ind));
}


/// A document that ends with EOT comes back through the pretty form too:
/// the EOT shows as its picture on a line of its own, and reads back.
#[verifier::rlimit(40)]
pub proof fn pretty_round_trips_with_eot(ind: Seq<u8>, file: Option<Seq<u8>>, groups: Seq<GroupSpec>)
    requires
        blank(ind),
        file matches Some(f) ==> is_name(f) && plain(f),
        forall|i: int| 0 <= i < groups.len() ==> group_reads_back(#[trigger] groups[i]),
    ensures
        pretty_bytes(document_bytes(file, groups).push(EOT), ind) == lines_pretty(
            document_lines(ind, file, groups),
        ) + glyph_bytes(EOT) + seq![0x0au8],
        parsed(pretty_bytes(document_bytes(file, groups).push(EOT), ind)) == document_bytes(file, groups).push(
            EOT,
        ),
{
    let doc = document_bytes(file, groups);
    let s = doc.push(EOT);
    let n = doc.len() as int;
    let ls = document_lines(ind, file, groups);
    pretty_document_round_trips(ind, file, groups);
    assert(s.subrange(0, n) =~= doc);
    assert(s[n] == EOT);
    lemma_glyph(EOT);
    let tail = glyph_bytes(EOT) + seq![0x0au8];
    assert(pretty_from(s, ind, n + 1, 0, true) == Seq::<u8>::empty());
    assert(pretty_from(s, ind, n + 1, 1, true) == Seq::<u8>::empty());
    assert(pretty_from(s, ind, n, 0, true) =~= tail);
    assert(pretty_from(s, ind, n, 1, true) =~= tail);
    match file {
        Some(f) => {
            let gb = groups_bytes(groups);
            let e: int = 1 + f.len() as int;
            lemma_occurs_split(s, 0, seq![FS] + f, gb);
            lemma_occurs_split(s, 0, seq![FS], f);
            lemma_occurs_index(s, 0, seq![FS], 0);
            lemma_groups_pretty(s, ind, e, 1, groups);
            lemma_data_run_name(s, 1, f);
            if gb.len() > 0 {
                lemma_occurs_index(s, e, gb, 0);
                assert(gb[0] == GS);
            }
            assert(data_run_end(s, e) == e);
            assert(s.subrange(1, e) =~= f);
            assert forall|k: int| 0 <= k < f.len() implies #[trigger] f[k] >= 0x20 by {}
            lemma_shown_all_data(f);
            let fl = Line { indent: Seq::empty(), code: FS, text: f };
            lemma_lines_one(fl);
            lemma_lines_concat(seq![fl], groups_lines(ind, 1, groups));
            assert(pretty_bytes(s, ind) =~= lines_pretty(ls) + tail);
        },
        None => {
            lemma_groups_pretty(s, ind, 0, 0, groups);
            assert(pretty_bytes(s, ind) =~= lines_pretty(ls) + tail);
        },
    }
    let b = lines_pretty(ls) + tail;
    let m = lines_pretty(ls).len() as int;
    assert(b.subrange(0, m) =~= lines_pretty(ls));
    assert(b.subrange(m, m + 4) =~= tail);
    lemma_parse_lines(b, 0, ls);
    lemma_parse_eot_line(b, m);
    assert(lines_compact(ls) + seq![EOT] =~= s);
}

// The picture of EOT and a line break read back as EOT.
proof fn lemma_parse_eot_line(b: Seq<u8>, m: int)
    requires
        0 <= m,
        b.len() == m + 4,
        b.subrange(m, m + 4) == glyph_bytes(EOT) + seq![0x0au8],
    ensures
        parse_from(b, m, Seq::empty(), true) == seq![EOT],
{
    lemma_glyph(EOT);
    let t = glyph_bytes(EOT) + seq![0x0au8];
    assert(b[m] == t[0] && b[m + 1] == t[1] && b[m + 2] == t[2] && b[m + 3] == t[3]);
    assert(picture_at(b, m));
    assert(picture_code(b, m) == EOT);
    assert(!picture_at(b, m + 3));
    assert(parse_from(b, m + 4, Seq::empty(), true) == Seq::<u8>::empty());
    assert(parse_from(b, m + 3, Seq::empty(), true) == Seq::<u8>::empty());
    assert(seq![EOT] + Seq::<u8>::empty() =~= seq![EOT]);
}

proof fn lemma_shows(out: Seq<u8>, a: Seq<u8>, c: u8, rest: Seq<u8>)
    requires
        c < 0x20,
        out == a + glyph_bytes(c) + rest,
    ensures
        exists|k: int| 0 <= k && k + 3 <= out.len() && #[trigger] out.subrange(k, k + 3) == glyph_bytes(c),
{
    lemma_glyph(c);
    let k = a.len() as int;
    assert(out.subrange(k, k + 3) =~= glyph_bytes(c));
}

/// Every control byte the formatter meets outside an escape shows in the
/// pretty text as its Control Picture.
#[verifier::rlimit(60)]
pub proof fn control_shows_its_picture(s: Seq<u8>, ind: Seq<u8>, p: int, depth: nat, line_start: bool)
    requires
        0 <= p < s.len(),
        s[p] < 0x20,
    ensures
        exists|k: int|
            0 <= k && k + 3 <= pretty_from(s, ind, p, depth, line_start).len() && #[trigger] pretty_from(
                s,
                ind,
                p,
                depth,
                line_start,
            ).subrange(k, k + 3) == glyph_bytes(s[p]),
{
    let b = s[p];
    let out = pretty_from(s, ind, p, depth, line_start);
    lemma_glyph(b);
    assert(glyph_bytes(b).len() == 3);
    if b == FS {
        lemma_data_run(s, p + 1);
        let e = data_run_end(s, p + 1);
        let a = break_unless(line_start);
        let rest = s.subrange(p + 1, e) + seq![0x0au8] + pretty_from(s, ind, e, 1, true);
        assert(out =~= a + glyph_bytes(FS) + rest);
        lemma_shows(out, a, FS, rest);
    } else if b == GS {
        crate::document::lemma_gs_run_end(s, p);
        let q = gs_run_end(s, p);
        assert(q > p) by {
            crate::document::lemma_gs_run_end(s, p + 1);
        }
        lemma_data_run(s, q);
        let e = data_run_end(s, q);
        let a = break_unless(line_start) + indent_bytes(ind, depth);
        lemma_gs_glyphs_front((q - p - 1) as nat);
        let rest = gs_glyphs((q - p - 1) as nat) + s.subrange(q, e) + seq![0x0au8] + pretty_from(
            s,
            ind,
            e,
            depth,
            true,
        );
        assert(out =~= a + glyph_bytes(GS) + rest);
        lemma_shows(out, a, GS, rest);
    } else if b == SOH || b == RS {
        crate::pretty::lemma_fields_line(s, p + 1);
        let (o, q) = fields_line(s, p + 1);
        let a = indent_bytes(ind, depth + 1);
        let rest = o + seq![0x0au8] + pretty_from(s, ind, q, depth, true);
        assert(out =~= a + glyph_bytes(b) + rest);
        lemma_shows(out, a, b, rest);
    } else if b == STX {
        let a = Seq::<u8>::empty();
        let rest = seq![0x0au8] + pretty_from(s, ind, p + 1, depth + 1, true);
        assert(out =~= a + glyph_bytes(b) + rest);
        lemma_shows(out, a, b, rest);
    } else if b == crate::ETX {
        let dd = if depth > 0 {
            (depth - 1) as nat
        } else {
            0nat
        };
        let a = indent_bytes(ind, dd + 1);
        let rest = pretty_from(s, ind, p + 1, dd, line_start);
        assert(out =~= a + glyph_bytes(b) + rest);
        lemma_shows(out, a, b, rest);
    } else if b == EOT {
        let a = break_unless(line_start);
        let rest = seq![0x0au8] + pretty_from(s, ind, p + 1, depth, true);
        assert(out =~= a + glyph_bytes(b) + rest);
        lemma_shows(out, a, b, rest);
    } else if b == DLE {
        let a = Seq::<u8>::empty();
        let rest = if p + 1 < s.len() {
            shown(s[p + 1]) + pretty_from(s, ind, p + 2, depth, line_start)
        } else {
            pretty_from(s, ind, p + 1, depth, line_start)
        };
        assert(out =~= a + glyph_bytes(b) + rest);
        lemma_shows(out, a, b, rest);
    } else if b == crate::ETB {
        lemma_data_run(s, p + 1);
        let e = data_run_end(s, p + 1);
        let a = if line_start {
            indent_bytes(ind, depth + 1)
        } else {
            Seq::<u8>::empty()
        };
        let rest = s.subrange(p + 1, e) + seq![0x0au8] + pretty_from(s, ind, e, depth, true);
        assert(out =~= a + glyph_bytes(b) + rest);
        lemma_shows(out, a, b, rest);
    } else {
        let a = Seq::<u8>::empty();
        let rest = pretty_from(s, ind, p + 1, depth, line_start);
        assert(out =~= a + glyph_bytes(b) + rest);
        lemma_shows(out, a, b, rest);
    }
}

/// The text of a control byte's picture parses back to the byte.
pub proof fn glyph_parses_back(b: u8)
    requires
        b < 0x20,
    ensures
        parsed(encode_utf8(seq![glyph_of(b)])) == seq![b],
{
    let c = glyph_of(b);
    assert((c as u32) == (0x2400 + b) as u32);
    lemma_glyph(b);
    assert(seq![c].drop_first() =~= Seq::<char>::empty());
    assert(encode_utf8(Seq::<char>::empty()) == Seq::<u8>::empty());
    let t = encode_utf8(seq![c]);
    assert(t =~= glyph_bytes(b));
    assert(picture_at(t, 0));
    assert(picture_code(t, 0) == b);
    if b == STX {
        assert(crate::pretty::quoted_from(t, 3, 1) == (Seq::<u8>::empty(), 3int));
    }
    assert(parse_from(t, 3, Seq::empty(), true) == Seq::<u8>::empty());
    assert(parsed(t) =~= seq![b]);
}

} // verus!
