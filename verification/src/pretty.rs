//! Pretty form: Unicode Control Pictures (U+2400 block) with indentation.
//!
//! [`format`]/[`format_with`] lay a compact buffer out one structure per
//! line; [`parse`] reads pretty text back to compact bytes.

use vstd::prelude::*;
use vstd::string::StringSliceAdditionalSpecFns;
use vstd::utf8::{decode_utf8, encode_scalar, is_scalar, valid_utf8};

use crate::document::gs_run_end;
use crate::scan::{lemma_data_run, scan_data, slice_len};
use crate::text::{bytes_to_string, utf8_lossy};
use crate::tokenizer::data_run_end;
use crate::{DLE, ENQ, EOT, ETB, ETX, FS, GS, RS, SOH, STX, US};

verus! {

/// The character a code point names, if it is a Unicode scalar value, through
/// `char::from_u32`, whose documentation promises exactly this.
#[verifier::external_body]
fn char_from_u32(i: u32) -> (r: Option<char>)
    ensures
        is_scalar(i) ==> r == Some(i as char),
        !is_scalar(i) ==> r is None,
{
    char::from_u32(i)
}

/// The Unicode Control Picture of a byte: U+2400 plus the byte.
pub open spec fn glyph_of(byte: u8) -> char {
    (0x2400 + byte) as char
}

/// Convert a C0 control byte to its Unicode Control Picture character.
pub fn glyph(byte: u8) -> (r: char)
    ensures
        r == glyph_of(byte),
{
    match char_from_u32(0x2400 + byte as u32) {
        Some(c) => c,
        None => '\u{FFFD}',
    }
}

/// The UTF-8 bytes of the Control Picture of a byte.
pub open spec fn glyph_bytes(byte: u8) -> Seq<u8> {
    encode_scalar((0x2400 + byte) as u32)
}

/// A byte as the pretty form shows it: control bytes as their picture, other
/// bytes as themselves.
pub open spec fn shown(byte: u8) -> Seq<u8> {
    if byte < 0x20 {
        glyph_bytes(byte)
    } else {
        seq![byte]
    }
}

/// `depth` copies of the indent string.
pub open spec fn indent_bytes(ind: Seq<u8>, depth: nat) -> Seq<u8>
    decreases depth,
{
    if depth == 0 {
        Seq::empty()
    } else {
        indent_bytes(ind, (depth - 1) as nat) + ind
    }
}

/// The data run that starts at `p`.
pub open spec fn data_at(s: Seq<u8>, p: int) -> Seq<u8> {
    s.subrange(p, data_run_end(s, p))
}

/// The shown bytes of a nested scope inside a record line, from `p` up to
/// and including the first ETX; and where it ends.
pub open spec fn quoted_line(s: Seq<u8>, p: int) -> (Seq<u8>, int)
    decreases s.len() - p,
{
    if p < 0 || p >= s.len() {
        (Seq::empty(), p)
    } else if s[p] == ETX {
        (glyph_bytes(ETX), p + 1)
    } else {
        let (o, q) = quoted_line(s, p + 1);
        (shown(s[p]) + o, q)
    }
}

/// The shown bytes of a header or record line from `p` on, and where the
/// line ends (at the next structural control code).
pub open spec fn fields_line(s: Seq<u8>, p: int) -> (Seq<u8>, int)
    decreases s.len() - p,
{
    if p < 0 || p >= s.len() {
        (Seq::empty(), p)
    } else {
        let b = s[p];
        if b == US || b == ENQ {
            let (o, q) = fields_line(s, p + 1);
            (glyph_bytes(b) + o, q)
        } else if b == DLE {
            if p + 1 < s.len() {
                let (o, q) = fields_line(s, p + 2);
                (glyph_bytes(DLE) + shown(s[p + 1]) + o, q)
            } else {
                (glyph_bytes(DLE), s.len() as int)
            }
        } else if b == ETB {
            let e = data_run_end(s, p + 1);
            if e <= p || e > s.len() {
                (Seq::empty(), p)
            } else {
                let (o, q) = fields_line(s, e);
                (glyph_bytes(ETB) + s.subrange(p + 1, e) + o, q)
            }
        } else if b == STX {
            let (o1, q1) = quoted_line(s, p + 1);
            if q1 <= p || q1 > s.len() {
                (Seq::empty(), p)
            } else {
                let (o, q) = fields_line(s, q1);
                (glyph_bytes(STX) + o1 + o, q)
            }
        } else if b < 0x20 {
            (Seq::empty(), p)
        } else {
            let (o, q) = fields_line(s, p + 1);
            (seq![b] + o, q)
        }
    }
}

/// A newline unless the output is at the start of a line.
pub open spec fn break_unless(line_start: bool) -> Seq<u8> {
    if line_start {
        Seq::empty()
    } else {
        seq![0x0au8]
    }
}

/// `n` pictures of GS.
pub open spec fn gs_glyphs(n: nat) -> Seq<u8>
    decreases n,
{
    if n == 0 {
        Seq::empty()
    } else {
        gs_glyphs((n - 1) as nat) + glyph_bytes(GS)
    }
}

/// The pretty form of `s[p..]`, at nesting depth `depth`, with the output
/// at the start of a line or not.
pub open spec fn pretty_from(s: Seq<u8>, ind: Seq<u8>, p: int, depth: nat, line_start: bool) -> Seq<
    u8,
>
    decreases s.len() - p,
{
    if p < 0 || p >= s.len() {
        break_unless(line_start)
    } else {
        let b = s[p];
        if b >= 0x20 {
            seq![b] + pretty_from(s, ind, p + 1, depth, false)
        } else if b == FS {
            let e = data_run_end(s, p + 1);
            if e <= p || e > s.len() {
                Seq::empty()
            } else {
                break_unless(line_start) + glyph_bytes(FS) + s.subrange(p + 1, e) + seq![0x0au8]
                    + pretty_from(s, ind, e, 1, true)
            }
        } else if b == GS {
            let q = gs_run_end(s, p);
            let e = data_run_end(s, q);
            if q <= p || e < q || e > s.len() {
                Seq::empty()
            } else {
                break_unless(line_start) + indent_bytes(ind, depth) + gs_glyphs((q - p) as nat)
                    + s.subrange(q, e) + seq![0x0au8] + pretty_from(s, ind, e, depth, true)
            }
        } else if b == SOH || b == RS {
            let (o, q) = fields_line(s, p + 1);
            if q <= p || q > s.len() {
                Seq::empty()
            } else {
                indent_bytes(ind, depth + 1) + glyph_bytes(b) + o + seq![0x0au8] + pretty_from(
                    s,
                    ind,
                    q,
                    depth,
                    true,
                )
            }
        } else if b == STX {
            glyph_bytes(STX) + seq![0x0au8] + pretty_from(s, ind, p + 1, depth + 1, true)
        } else if b == ETX {
            let d = if depth > 0 {
                (depth - 1) as nat
            } else {
                0nat
            };
            indent_bytes(ind, d + 1) + glyph_bytes(ETX) + pretty_from(s, ind, p + 1, d, line_start)
        } else if b == EOT {
            break_unless(line_start) + glyph_bytes(EOT) + seq![0x0au8] + pretty_from(
                s,
                ind,
                p + 1,
                depth,
                true,
            )
        } else if b == DLE {
            if p + 1 < s.len() {
                glyph_bytes(DLE) + shown(s[p + 1]) + pretty_from(s, ind, p + 2, depth, line_start)
            } else {
                glyph_bytes(DLE) + pretty_from(s, ind, p + 1, depth, line_start)
            }
        } else if b == ETB {
            let e = data_run_end(s, p + 1);
            if e <= p || e > s.len() {
                Seq::empty()
            } else {
                (if line_start {
                    indent_bytes(ind, depth + 1)
                } else {
                    Seq::empty()
                }) + glyph_bytes(ETB) + s.subrange(p + 1, e) + seq![0x0au8] + pretty_from(
                    s,
                    ind,
                    e,
                    depth,
                    true,
                )
            }
        } else {
            glyph_bytes(b) + pretty_from(s, ind, p + 1, depth, line_start)
        }
    }
}

/// The pretty form of a compact buffer, as bytes.
pub open spec fn pretty_bytes(s: Seq<u8>, ind: Seq<u8>) -> Seq<u8> {
    pretty_from(s, ind, 0, 0, true)
}

pub(crate) fn push_glyph(out: &mut Vec<u8>, byte: u8)
    ensures
        final(out)@ == old(out)@ + glyph_bytes(byte),
{
    let v: u32 = 0x2400 + byte as u32;
    let b0: u8 = 0xE0 | ((v >> 12) & 0x0F) as u8;
    let b1: u8 = 0x80 | ((v >> 6) & 0x3F) as u8;
    let b2: u8 = 0x80 | (v & 0x3F) as u8;
    out.push(b0);
    out.push(b1);
    out.push(b2);
    proof {
        assert(v == (0x2400 + byte) as u32);
        assert(0x800 <= v <= 0xFFFF && !(0xD800 <= v <= 0xDFFF));
        assert(glyph_bytes(byte) =~= seq![b0, b1, b2]);
    }
}

fn push_shown(out: &mut Vec<u8>, byte: u8)
    ensures
        final(out)@ == old(out)@ + shown(byte),
{
    if byte < 0x20 {
        push_glyph(out, byte);
    } else {
        out.push(byte);
    }
}

fn write_indent(out: &mut Vec<u8>, indent: &[u8], depth: usize)
    ensures
        final(out)@ == old(out)@ + indent_bytes(indent@, depth as nat),
{
    let ghost start = out@;
    for i in 0..depth
        invariant
            out@ == start + indent_bytes(indent@, i as nat),
    {
        let n = indent.len();
        let ghost before = out@;
        for k in 0..n
            invariant
                n == indent@.len(),
                out@ == before + indent@.take(k as int),
        {
            out.push(indent[k]);
            assert(indent@.take(k + 1) =~= indent@.take(k as int).push(indent@[k as int]));
        }
        assert(indent@.take(n as int) =~= indent@);
        assert(indent_bytes(indent@, (i + 1) as nat) == indent_bytes(indent@, i as nat) + indent@);
    }
}

fn write_data_until_control(buf: &[u8], pos: usize, out: &mut Vec<u8>) -> (r: usize)
    requires
        pos <= buf@.len(),
    ensures
        r == data_run_end(buf@, pos as int),
        pos <= r <= buf@.len(),
        final(out)@ == old(out)@ + data_at(buf@, pos as int),
{
    let end = scan_data(buf, pos);
    let ghost start = out@;
    for k in pos..end
        invariant
            pos <= end <= buf@.len(),
            out@ == start + buf@.subrange(pos as int, k as int),
    {
        out.push(buf[k]);
        assert(buf@.subrange(pos as int, k + 1) =~= buf@.subrange(pos as int, k as int).push(
            buf@[k as int],
        ));
    }
    end
}

proof fn lemma_quoted_line(s: Seq<u8>, p: int)
    requires
        0 <= p <= s.len(),
    ensures
        p <= quoted_line(s, p).1 <= s.len(),
    decreases s.len() - p,
{
    if p < s.len() && s[p] != ETX {
        lemma_quoted_line(s, p + 1);
    }
}

pub(crate) proof fn lemma_fields_line(s: Seq<u8>, p: int)
    requires
        0 <= p <= s.len(),
    ensures
        p <= fields_line(s, p).1 <= s.len(),
    decreases s.len() - p,
{
    if p < s.len() {
        let b = s[p];
        if b == US || b == ENQ {
            lemma_fields_line(s, p + 1);
        } else if b == DLE {
            if p + 1 < s.len() {
                lemma_fields_line(s, p + 2);
            }
        } else if b == ETB {
            lemma_data_run(s, p + 1);
            let e = data_run_end(s, p + 1);
            if e > p && e <= s.len() {
                lemma_fields_line(s, e);
            }
        } else if b == STX {
            lemma_quoted_line(s, p + 1);
            let q1 = quoted_line(s, p + 1).1;
            if q1 > p && q1 <= s.len() {
                lemma_fields_line(s, q1);
            }
        } else if b >= 0x20 {
            lemma_fields_line(s, p + 1);
        }
    }
}

fn write_quoted(buf: &[u8], pos: usize, out: &mut Vec<u8>) -> (r: usize)
    requires
        pos <= buf@.len(),
    ensures
        r == quoted_line(buf@, pos as int).1,
        final(out)@ == old(out)@ + quoted_line(buf@, pos as int).0,
{
    let len = buf.len();
    let ghost s = buf@;
    let ghost start = out@;
    let mut p = pos;
    proof {
        lemma_quoted_line(s, pos as int);
    }
    while p < len
        invariant
            s == buf@,
            len == s.len(),
            pos <= p <= len,
            start == old(out)@,
            quoted_line(s, pos as int).1 == quoted_line(s, p as int).1,
            start + quoted_line(s, pos as int).0 == out@ + quoted_line(s, p as int).0,
        decreases len - p,
    {
        let b = buf[p];
        if b == ETX {
            push_glyph(out, ETX);
            return p + 1;
        }
        let ghost before = out@;
        push_shown(out, b);
        proof {
            let (o, q) = quoted_line(s, p + 1);
            assert(before + (shown(b) + o) == before + shown(b) + o);
        }
        p = p + 1;
    }
    proof {
        assert(out@ + Seq::<u8>::empty() == out@);
    }
    p
}

#[verifier::rlimit(60)]
fn write_fields_line(buf: &[u8], pos: usize, out: &mut Vec<u8>) -> (r: usize)
    requires
        pos <= buf@.len(),
    ensures
        r == fields_line(buf@, pos as int).1,
        final(out)@ == old(out)@ + fields_line(buf@, pos as int).0,
{
    let len = buf.len();
    let ghost s = buf@;
    let ghost start = out@;
    let mut p = pos;
    proof {
        lemma_fields_line(s, pos as int);
    }
    while p < len
        invariant
            s == buf@,
            len == s.len(),
            pos <= p <= len,
            start == old(out)@,
            fields_line(s, pos as int).1 == fields_line(s, p as int).1,
            start + fields_line(s, pos as int).0 == out@ + fields_line(s, p as int).0,
        decreases len - p,
    {
        let byte = buf[p];
        let ghost before = out@;
        if byte == US || byte == ENQ {
            push_glyph(out, byte);
            proof {
                let (o, q) = fields_line(s, p + 1);
                assert(before + (glyph_bytes(byte) + o) == before + glyph_bytes(byte) + o);
            }
            p = p + 1;
        } else if byte == DLE {
            push_glyph(out, DLE);
            if len - p >= 2 {
                push_shown(out, buf[p + 1]);
                proof {
                    let (o, q) = fields_line(s, p + 2);
                    assert(before + (glyph_bytes(DLE) + shown(s[p + 1]) + o) == before
                        + glyph_bytes(DLE) + shown(s[p + 1]) + o);
                }
                p = p + 2;
            } else {
                proof {
                    assert(fields_line(s, len as int).0 == Seq::<u8>::empty());
                    assert(before + glyph_bytes(DLE) == before + glyph_bytes(DLE)
                        + Seq::<u8>::empty());
                }
                p = len;
            }
        } else if byte == ETB {
            push_glyph(out, ETB);
            let ghost mid = out@;
            let e = write_data_until_control(buf, p + 1, out);
            proof {
                let (o, q) = fields_line(s, e as int);
                assert(before + (glyph_bytes(ETB) + s.subrange(p + 1, e as int) + o) == before
                    + glyph_bytes(ETB) + s.subrange(p + 1, e as int) + o);
            }
            p = e;
        } else if byte == STX {
            push_glyph(out, STX);
            let q1 = write_quoted(buf, p + 1, out);
            proof {
                lemma_quoted_line(s, p + 1);
                let (o1, _) = quoted_line(s, p + 1);
                let (o, q) = fields_line(s, q1 as int);
                assert(before + (glyph_bytes(STX) + o1 + o) == before + glyph_bytes(STX) + o1 + o);
            }
            p = q1;
        } else if byte < 0x20 {
            proof {
                assert(out@ + Seq::<u8>::empty() == out@);
            }
            return p;
        } else {
            out.push(byte);
            proof {
                let (o, q) = fields_line(s, p + 1);
                assert(before + (seq![byte] + o) == before.push(byte) + o);
            }
            p = p + 1;
        }
    }
    proof {
        assert(out@ + Seq::<u8>::empty() == out@);
    }
    p
}

fn push_newline_unless(out: &mut Vec<u8>, line_start: bool)
    ensures
        final(out)@ == old(out)@ + break_unless(line_start),
{
    if !line_start {
        out.push(0x0a);
    } else {
        assert(out@ + Seq::<u8>::empty() == out@);
    }
}

proof fn lemma_gs_run(s: Seq<u8>, p: int)
    requires
        0 <= p <= s.len(),
    ensures
        p <= gs_run_end(s, p) <= s.len(),
        gs_run_end(s, p) < s.len() ==> s[gs_run_end(s, p)] != GS,
    decreases s.len() - p,
{
    if p < s.len() && s[p] == GS {
        lemma_gs_run(s, p + 1);
    }
}

/// One step of the layout when the next byte is FS: the file name line.
fn format_file_line(buf: &[u8], indent: &[u8], pos: usize, line_start: bool, out: &mut Vec<u8>) -> (r: usize)
    requires
        pos < buf@.len(),
        buf@[pos as int] == FS,
    ensures
        pos < r <= buf@.len(),
        forall|d: nat|
            #![trigger pretty_from(buf@, indent@, pos as int, d, line_start)]
            old(out)@ + pretty_from(buf@, indent@, pos as int, d, line_start) == final(out)@
                + pretty_from(buf@, indent@, r as int, 1, true),
{
    let ghost s = buf@;
    let ghost before = out@;
    push_newline_unless(out, line_start);
    push_glyph(out, FS);
    let len = buf.len();
    let e = write_data_until_control(buf, pos + 1, out);
    out.push(0x0a);
    proof {
        let rest = pretty_from(s, indent@, e as int, 1, true);
        assert(before + (break_unless(line_start) + glyph_bytes(FS) + s.subrange(pos + 1, e as int)
            + seq![0x0au8] + rest) == out@ + rest);
    }
    e
}

/// One step of the layout when the next byte is GS: the group or section
/// line.
fn format_group_line(
    buf: &[u8],
    indent: &[u8],
    pos: usize,
    depth: usize,
    line_start: bool,
    out: &mut Vec<u8>,
) -> (r: usize)
    requires
        pos < buf@.len(),
        buf@[pos as int] == GS,
    ensures
        pos < r <= buf@.len(),
        old(out)@ + pretty_from(buf@, indent@, pos as int, depth as nat, line_start) == final(out)@
            + pretty_from(buf@, indent@, r as int, depth as nat, true),
{
    let len = buf.len();
    let ghost s = buf@;
    let ghost ind = indent@;
    let ghost before = out@;
    proof {
        lemma_gs_run(s, pos as int);
    }
    let mut q = pos;
    let mut run: usize = 0;
    while q < len && buf[q] == GS
        invariant
            s == buf@,
            len == s.len(),
            pos <= q <= len,
            run == q - pos,
            gs_run_end(s, q as int) == gs_run_end(s, pos as int),
        decreases len - q,
    {
        run = run + 1;
        q = q + 1;
    }
    push_newline_unless(out, line_start);
    write_indent(out, indent, depth);
    let ghost g1 = out@;
    for k in 0..run
        invariant
            out@ == g1 + gs_glyphs(k as nat),
    {
        push_glyph(out, GS);
    }
    let e = write_data_until_control(buf, q, out);
    out.push(0x0a);
    proof {
        let rest = pretty_from(s, ind, e as int, depth as nat, true);
        assert(before + (break_unless(line_start) + indent_bytes(ind, depth as nat) + gs_glyphs(
            run as nat,
        ) + s.subrange(q as int, e as int) + seq![0x0au8] + rest) == out@ + rest);
    }
    e
}

/// One step of the layout when the next byte is SOH or RS: a header or
/// record line.
fn format_fields_line(buf: &[u8], indent: &[u8], pos: usize, depth: usize, out: &mut Vec<u8>) -> (r: usize)
    requires
        pos < buf@.len(),
        buf@[pos as int] == SOH || buf@[pos as int] == RS,
        depth < usize::MAX,
    ensures
        pos < r <= buf@.len(),
        forall|ls: bool|
            old(out)@ + #[trigger] pretty_from(buf@, indent@, pos as int, depth as nat, ls)
                == final(out)@ + pretty_from(buf@, indent@, r as int, depth as nat, true),
{
    let ghost s = buf@;
    let ghost ind = indent@;
    let ghost before = out@;
    let byte = buf[pos];
    write_indent(out, indent, depth + 1);
    push_glyph(out, byte);
    let q = write_fields_line(buf, pos + 1, out);
    out.push(0x0a);
    proof {
        lemma_fields_line(s, pos + 1);
        let (o, _) = fields_line(s, pos + 1);
        let rest = pretty_from(s, ind, q as int, depth as nat, true);
        assert(before + (indent_bytes(ind, (depth + 1) as nat) + glyph_bytes(byte) + o
            + seq![0x0au8] + rest) == out@ + rest);
    }
    q
}

/// One step of the layout when the next byte is ETB: a commit marker line.
fn format_commit_line(
    buf: &[u8],
    indent: &[u8],
    pos: usize,
    depth: usize,
    line_start: bool,
    out: &mut Vec<u8>,
) -> (r: usize)
    requires
        pos < buf@.len(),
        buf@[pos as int] == ETB,
        depth < usize::MAX,
    ensures
        pos < r <= buf@.len(),
        old(out)@ + pretty_from(buf@, indent@, pos as int, depth as nat, line_start) == final(out)@
            + pretty_from(buf@, indent@, r as int, depth as nat, true),
{
    let ghost s = buf@;
    let ghost ind = indent@;
    let ghost before = out@;
    if line_start {
        write_indent(out, indent, depth + 1);
    } else {
        assert(out@ + Seq::<u8>::empty() == out@);
    }
    push_glyph(out, ETB);
    let len = buf.len();
    let e = write_data_until_control(buf, pos + 1, out);
    out.push(0x0a);
    proof {
        let rest = pretty_from(s, ind, e as int, depth as nat, true);
        let lead = if line_start {
            indent_bytes(ind, (depth + 1) as nat)
        } else {
            Seq::<u8>::empty()
        };
        assert(before + (lead + glyph_bytes(ETB) + s.subrange(pos + 1, e as int) + seq![0x0au8]
            + rest) == out@ + rest);
    }
    e
}

/// One step of the layout for a byte that does not start a line of its own.
fn format_inline(
    buf: &[u8],
    indent: &[u8],
    pos: usize,
    depth: usize,
    line_start: bool,
    out: &mut Vec<u8>,
) -> (r: (usize, usize, bool))
    requires
        pos < buf@.len(),
        depth <= pos,
        !(buf@[pos as int] == FS || buf@[pos as int] == GS || buf@[pos as int] == SOH
            || buf@[pos as int] == RS || buf@[pos as int] == ETB),
    ensures
        pos < r.0 <= buf@.len(),
        r.1 <= r.0,
        old(out)@ + pretty_from(buf@, indent@, pos as int, depth as nat, line_start) == final(out)@
            + pretty_from(buf@, indent@, r.0 as int, r.1 as nat, r.2),
{
    let len = buf.len();
    let ghost s = buf@;
    let ghost ind = indent@;
    let ghost before = out@;
    let byte = buf[pos];
    if byte >= 0x20 {
        out.push(byte);
        proof {
            let rest = pretty_from(s, ind, pos + 1, depth as nat, false);
            assert(before + (seq![byte] + rest) == before.push(byte) + rest);
        }
        (pos + 1, depth, false)
    } else if byte == STX {
        push_glyph(out, STX);
        out.push(0x0a);
        proof {
            let rest = pretty_from(s, ind, pos + 1, (depth + 1) as nat, true);
            assert(before + (glyph_bytes(STX) + seq![0x0au8] + rest) == out@ + rest);
        }
        (pos + 1, depth + 1, true)
    } else if byte == ETX {
        let d = if depth > 0 {
            depth - 1
        } else {
            0
        };
        write_indent(out, indent, d + 1);
        push_glyph(out, ETX);
        proof {
            let rest = pretty_from(s, ind, pos + 1, d as nat, line_start);
            assert(before + (indent_bytes(ind, (d + 1) as nat) + glyph_bytes(ETX) + rest) == out@
                + rest);
        }
        (pos + 1, d, line_start)
    } else if byte == EOT {
        push_newline_unless(out, line_start);
        push_glyph(out, EOT);
        out.push(0x0a);
        proof {
            let rest = pretty_from(s, ind, pos + 1, depth as nat, true);
            assert(before + (break_unless(line_start) + glyph_bytes(EOT) + seq![0x0au8] + rest)
                == out@ + rest);
        }
        (pos + 1, depth, true)
    } else if byte == DLE {
        push_glyph(out, DLE);
        if len - pos >= 2 {
            push_shown(out, buf[pos + 1]);
            proof {
                let rest = pretty_from(s, ind, pos + 2, depth as nat, line_start);
                assert(before + (glyph_bytes(DLE) + shown(s[pos + 1]) + rest) == out@ + rest);
            }
            (pos + 2, depth, line_start)
        } else {
            proof {
                let rest = pretty_from(s, ind, pos + 1, depth as nat, line_start);
                assert(before + (glyph_bytes(DLE) + rest) == out@ + rest);
            }
            (pos + 1, depth, line_start)
        }
    } else {
        push_glyph(out, byte);
        proof {
            let rest = pretty_from(s, ind, pos + 1, depth as nat, line_start);
            assert(before + (glyph_bytes(byte) + rest) == out@ + rest);
        }
        (pos + 1, depth, line_start)
    }
}

pub(crate) fn format_compact(buf: &[u8], indent: &[u8], out: &mut Vec<u8>)
    ensures
        final(out)@ == old(out)@ + pretty_bytes(buf@, indent@),
{
    let len = slice_len(buf);
    let ghost s = buf@;
    let ghost ind = indent@;
    let ghost start = out@;
    let mut pos: usize = 0;
    let mut depth: usize = 0;
    let mut line_start = true;
    while pos < len
        invariant
            s == buf@,
            ind == indent@,
            len == s.len() <= isize::MAX,
            pos <= len,
            depth <= pos,
            start + pretty_bytes(s, ind) == out@ + pretty_from(s, ind, pos as int, depth as nat, line_start),
        decreases len - pos,
    {
        let byte = buf[pos];
        if byte == FS {
            pos = format_file_line(buf, indent, pos, line_start, out);
            depth = 1;
            line_start = true;
        } else if byte == GS {
            pos = format_group_line(buf, indent, pos, depth, line_start, out);
            line_start = true;
        } else if byte == SOH || byte == RS {
            pos = format_fields_line(buf, indent, pos, depth, out);
            line_start = true;
        } else if byte == ETB {
            pos = format_commit_line(buf, indent, pos, depth, line_start, out);
            line_start = true;
        } else {
            let (p, d, l) = format_inline(buf, indent, pos, depth, line_start, out);
            pos = p;
            depth = d;
            line_start = l;
        }
    }
    push_newline_unless(out, line_start);
}

/// Format a compact buffer as a human-readable Unicode string with newlines
/// and two-space indentation.
pub fn format(buf: &[u8]) -> (r: String)
    ensures
        r@ == utf8_lossy(pretty_bytes(buf@, seq![0x20u8, 0x20u8])),
        valid_utf8(pretty_bytes(buf@, seq![0x20u8, 0x20u8])) ==> r@ == decode_utf8(
            pretty_bytes(buf@, seq![0x20u8, 0x20u8]),
        ),
{
    let r = format_with(buf, "  ");
    proof {
        reveal_strlit("  ");
        assert("  "@ =~= seq![' ', ' ']);
        reveal_with_fuel(vstd::utf8::encode_utf8, 3);
        assert((32u32 & 0x7F) as u8 == 0x20u8) by (bit_vector);
        assert(encode_scalar(' ' as u32) =~= seq![0x20u8]);
        assert("  ".spec_bytes() =~= seq![0x20u8, 0x20u8]);
    }
    r
}

/// Format with a custom indent string.
pub fn format_with(buf: &[u8], indent: &str) -> (r: String)
    ensures
        r@ == utf8_lossy(pretty_bytes(buf@, indent.spec_bytes())),
        valid_utf8(pretty_bytes(buf@, indent.spec_bytes())) ==> r@ == decode_utf8(
            pretty_bytes(buf@, indent.spec_bytes()),
        ),
{
    let mut out: Vec<u8> = Vec::new();
    format_compact(buf, indent.as_bytes(), &mut out);
    assert(out@ =~= pretty_bytes(buf@, indent.spec_bytes()));
    bytes_to_string(out.as_slice())
}

/// A Control Picture (U+2400 to U+241F) is encoded at `i`: E2 90 80..9F.
pub open spec fn picture_at(b: Seq<u8>, i: int) -> bool {
    0 <= i && i + 2 < b.len() && b[i] == 0xE2 && b[i + 1] == 0x90 && 0x80 <= b[i + 2] <= 0x9F
}

/// The control code a Control Picture at `i` stands for.
pub open spec fn picture_code(b: Seq<u8>, i: int) -> u8 {
    (b[i + 2] - 0x80) as u8
}

/// Text inside a nested scope from `i` on, copied verbatim with pictures
/// turned back into control codes, up to and including the ETX that closes
/// depth `depth`; and where it ends.
pub open spec fn quoted_from(b: Seq<u8>, i: int, depth: nat) -> (Seq<u8>, int)
    decreases b.len() - i,
{
    if i < 0 || i >= b.len() {
        (Seq::empty(), i)
    } else if picture_at(b, i) {
        let code = picture_code(b, i);
        if code == ETX && depth <= 1 {
            (seq![code], i + 3)
        } else {
            let d = if code == STX {
                depth + 1
            } else if code == ETX {
                (depth - 1) as nat
            } else {
                depth
            };
            let (o, j) = quoted_from(b, i + 3, d);
            (seq![code] + o, j)
        }
    } else {
        let (o, j) = quoted_from(b, i + 1, depth);
        (seq![b[i]] + o, j)
    }
}

/// Compact bytes of pretty text from `i` on. Pictures become control codes;
/// LF and CR are dropped; spaces and tabs next to a control code or a line
/// break are dropped (`ws` holds the ones seen since the last other
/// character, `trim` whether spaces are being dropped); inside STX/ETX all is
/// kept verbatim.
pub open spec fn parse_from(b: Seq<u8>, i: int, ws: Seq<u8>, trim: bool) -> Seq<u8>
    decreases b.len() - i,
{
    if i < 0 || i >= b.len() {
        Seq::empty()
    } else if picture_at(b, i) {
        let code = picture_code(b, i);
        if code == STX {
            let (o, j) = quoted_from(b, i + 3, 1);
            if j <= i || j > b.len() {
                seq![code]
            } else {
                seq![code] + o + parse_from(b, j, Seq::empty(), true)
            }
        } else {
            seq![code] + parse_from(b, i + 3, Seq::empty(), true)
        }
    } else if b[i] == 0x0a || b[i] == 0x0d {
        parse_from(b, i + 1, Seq::empty(), true)
    } else if b[i] == 0x20 || b[i] == 0x09 {
        if trim {
            parse_from(b, i + 1, ws, true)
        } else {
            parse_from(b, i + 1, ws.push(b[i]), false)
        }
    } else {
        ws + seq![b[i]] + parse_from(b, i + 1, Seq::empty(), false)
    }
}

/// Compact bytes of pretty text.
pub open spec fn parsed(b: Seq<u8>) -> Seq<u8> {
    parse_from(b, 0, Seq::empty(), true)
}

proof fn lemma_quoted_from(b: Seq<u8>, i: int, depth: nat)
    requires
        0 <= i <= b.len(),
    ensures
        i <= quoted_from(b, i, depth).1 <= b.len(),
    decreases b.len() - i,
{
    if i < b.len() {
        if picture_at(b, i) {
            let code = picture_code(b, i);
            if !(code == ETX && depth <= 1) {
                let d = if code == STX {
                    depth + 1
                } else if code == ETX {
                    (depth - 1) as nat
                } else {
                    depth
                };
                lemma_quoted_from(b, i + 3, d);
            }
        } else {
            lemma_quoted_from(b, i + 1, depth);
        }
    }
}

fn is_picture(b: &[u8], i: usize) -> (r: bool)
    requires
        i <= b@.len(),
    ensures
        r == picture_at(b@, i as int),
{
    b.len() - i >= 3 && b[i] == 0xE2 && b[i + 1] == 0x90 && 0x80 <= b[i + 2] && b[i + 2] <= 0x9F
}

fn parse_quoted(b: &[u8], pos: usize, out: &mut Vec<u8>) -> (r: usize)
    requires
        pos <= b@.len(),
    ensures
        r == quoted_from(b@, pos as int, 1).1,
        final(out)@ == old(out)@ + quoted_from(b@, pos as int, 1).0,
{
    let len = slice_len(b);
    let ghost s = b@;
    let ghost start = out@;
    let mut i = pos;
    let mut depth: usize = 1;
    proof {
        lemma_quoted_from(s, pos as int, 1);
    }
    while i < len
        invariant
            s == b@,
            len == s.len() <= isize::MAX,
            pos <= i <= len,
            1 <= depth <= i + 1,
            start == old(out)@,
            quoted_from(s, pos as int, 1).1 == quoted_from(s, i as int, depth as nat).1,
            start + quoted_from(s, pos as int, 1).0 == out@ + quoted_from(s, i as int, depth as nat).0,
        decreases len - i,
    {
        let ghost before = out@;
        if is_picture(b, i) {
            let code = b[i + 2] - 0x80;
            out.push(code);
            if code == ETX && depth <= 1 {
                return i + 3;
            }
            if code == STX {
                depth = depth + 1;
            } else if code == ETX {
                depth = depth - 1;
            }
            proof {
                let (o, j) = quoted_from(s, i + 3, depth as nat);
                assert(before + (seq![code] + o) == before.push(code) + o);
            }
            i = i + 3;
        } else {
            out.push(b[i]);
            proof {
                let (o, j) = quoted_from(s, i + 1, depth as nat);
                assert(before + (seq![s[i as int]] + o) == before.push(s[i as int]) + o);
            }
            i = i + 1;
        }
    }
    proof {
        assert(out@ + Seq::<u8>::empty() == out@);
    }
    i
}

/// Parse pretty-form text back to compact bytes.
///
/// Control Pictures (U+2400 to U+241F) become C0 bytes; LF/CR are ignored;
/// whitespace adjacent to control codes is trimmed; inside STX/ETX everything
/// is preserved verbatim. The text is read as its UTF-8 bytes: a picture's
/// encoding cannot begin inside another character's.
pub fn parse(s: &str) -> (r: Vec<u8>)
    ensures
        r@ == parsed(s.spec_bytes()),
{
    let b = s.as_bytes();
    let len = b.len();
    let ghost t = b@;
    let mut out: Vec<u8> = Vec::new();
    let mut ws: Vec<u8> = Vec::new();
    let mut trim_after = true;
    let mut i: usize = 0;
    while i < len
        invariant
            t == b@,
            t == s.spec_bytes(),
            len == t.len(),
            i <= len,
            parsed(t) == out@ + parse_from(t, i as int, ws@, trim_after),
        decreases len - i,
    {
        let ghost before = out@;
        let ghost ws0 = ws@;
        if is_picture(b, i) {
            let code = b[i + 2] - 0x80;
            ws.clear();
            out.push(code);
            if code == STX {
                let j = parse_quoted(b, i + 3, &mut out);
                proof {
                    lemma_quoted_from(t, i + 3, 1);
                    let (o, _) = quoted_from(t, i + 3, 1);
                    let rest = parse_from(t, j as int, Seq::empty(), true);
                    assert(before + (seq![code] + o + rest) == out@ + rest);
                    assert(ws@ =~= Seq::<u8>::empty());
                }
                i = j;
            } else {
                proof {
                    let rest = parse_from(t, i + 3, Seq::empty(), true);
                    assert(before + (seq![code] + rest) == out@ + rest);
                    assert(ws@ =~= Seq::<u8>::empty());
                }
                i = i + 3;
            }
            trim_after = true;
        } else {
            let c = b[i];
            if c == 0x0a || c == 0x0d {
                ws.clear();
                proof {
                    assert(ws@ =~= Seq::<u8>::empty());
                }
                trim_after = true;
            } else if c == 0x20 || c == 0x09 {
                if !trim_after {
                    ws.push(c);
                }
            } else {
                trim_after = false;
                let n = ws.len();
                for k in 0..n
                    invariant
                        n == ws@.len(),
                        out@ == before + ws@.take(k as int),
                {
                    out.push(ws[k]);
                    assert(ws@.take(k + 1) =~= ws@.take(k as int).push(ws@[k as int]));
                }
                assert(ws@.take(n as int) =~= ws@);
                ws.clear();
                out.push(c);
                proof {
                    let rest = parse_from(t, i + 1, Seq::empty(), false);
                    assert(before + (ws0 + seq![c] + rest) == out@ + rest);
                    assert(ws@ =~= Seq::<u8>::empty());
                }
            }
            i = i + 1;
        }
    }
    out
}

} // verus!
