//! C0DIFF: atomic, anchored multi-file edits.
//!
//! Format: `[FS]<path>[GS]<literal>[US]<old>[SUB]<new>[US]<literal>`. FS starts
//! a file block, GS a pattern section, US separates pattern units (anchor and
//! replacement), SUB separates old from new within a replacement, and DLE
//! escapes literal control codes.

use vstd::prelude::*;
use vstd::string::StringSliceAdditionalSpecFns;
use vstd::utf8::encode_utf8;

use crate::builder::{escape, lemma_escape_step};
use crate::document::bytes_eq;
use crate::scan::{clamp, lemma_data_run, scan_data};
use crate::text::{bytes_to_string, decimal, push_decimal, utf8_lossy};
use vstd::string::StringExecFns;
use crate::tokenizer::data_run_end;
use crate::{unescape_from, unescaped, DLE, EOT, FS, GS, SUB, US};

verus! {

/// A pattern unit: literal anchor text, or a substitution (old to new).
#[derive(Debug, Clone, PartialEq, Eq)]
pub enum Unit {
    Anchor(Vec<u8>),
    Sub { old: Vec<u8>, new: Vec<u8> },
}

/// A pattern unit as bytes.
pub enum UnitView {
    Anchor(Seq<u8>),
    Sub { old: Seq<u8>, new: Seq<u8> },
}

impl View for Unit {
    type V = UnitView;

    open spec fn view(&self) -> UnitView {
        match self {
            Unit::Anchor(b) => UnitView::Anchor(b@),
            Unit::Sub { old, new } => UnitView::Sub { old: old@, new: new@ },
        }
    }
}

/// A section: a sequential pattern of units (anchors and substitutions).
#[derive(Debug, Clone, PartialEq, Eq)]
pub struct Section {
    pub units: Vec<Unit>,
}

/// The units of a section as bytes.
pub open spec fn units_view(units: Seq<Unit>) -> Seq<UnitView> {
    Seq::new(units.len(), |i: int| units[i]@)
}

impl View for Section {
    type V = Seq<UnitView>;

    open spec fn view(&self) -> Seq<UnitView> {
        units_view(self.units@)
    }
}

/// The text a unit matches: an anchor's text or a substitution's old text.
pub open spec fn unit_old(u: UnitView) -> Seq<u8> {
    match u {
        UnitView::Anchor(b) => b,
        UnitView::Sub { old, .. } => old,
    }
}

/// The text a unit becomes: an anchor's text or a substitution's new text.
pub open spec fn unit_new(u: UnitView) -> Seq<u8> {
    match u {
        UnitView::Anchor(b) => b,
        UnitView::Sub { new, .. } => new,
    }
}

/// The search pattern of units: their old texts, concatenated.
pub open spec fn pattern_of(units: Seq<UnitView>) -> Seq<u8>
    decreases units.len(),
{
    if units.len() == 0 {
        Seq::empty()
    } else {
        pattern_of(units.drop_last()) + unit_old(units.last())
    }
}

/// The replacement of units: their new texts, concatenated.
pub open spec fn replacement_of(units: Seq<UnitView>) -> Seq<u8>
    decreases units.len(),
{
    if units.len() == 0 {
        Seq::empty()
    } else {
        replacement_of(units.drop_last()) + unit_new(units.last())
    }
}

impl Section {
    /// The search pattern (old text of every unit, concatenated).
    pub fn search_pattern(&self) -> (r: Vec<u8>)
        ensures
            r@ == pattern_of(self@),
    {
        let mut out: Vec<u8> = Vec::new();
        let n = self.units.len();
        for i in 0..n
            invariant
                n == self.units@.len(),
                out@ == pattern_of(self@.take(i as int)),
        {
            let piece: &Vec<u8> = match &self.units[i] {
                Unit::Anchor(b) => b,
                Unit::Sub { old, .. } => old,
            };
            out.extend_from_slice(piece.as_slice());
            assert(self@.take(i + 1).drop_last() =~= self@.take(i as int));
        }
        assert(self@.take(n as int) =~= self@);
        out
    }

    /// The replacement (new text of every unit, concatenated).
    pub fn replacement(&self) -> (r: Vec<u8>)
        ensures
            r@ == replacement_of(self@),
    {
        let mut out: Vec<u8> = Vec::new();
        let n = self.units.len();
        for i in 0..n
            invariant
                n == self.units@.len(),
                out@ == replacement_of(self@.take(i as int)),
        {
            let piece: &Vec<u8> = match &self.units[i] {
                Unit::Anchor(b) => b,
                Unit::Sub { new, .. } => new,
            };
            out.extend_from_slice(piece.as_slice());
            assert(self@.take(i + 1).drop_last() =~= self@.take(i as int));
        }
        assert(self@.take(n as int) =~= self@);
        out
    }
}

/// A file edit: a path and its sections.
#[derive(Debug, Clone, PartialEq, Eq)]
pub struct FileEdit {
    pub path: Vec<u8>,
    pub sections: Vec<Section>,
}

/// A file edit as bytes and units.
pub struct FileEditView {
    pub path: Seq<u8>,
    pub sections: Seq<Seq<UnitView>>,
}

impl View for FileEdit {
    type V = FileEditView;

    open spec fn view(&self) -> FileEditView {
        FileEditView {
            path: self.path@,
            sections: Seq::new(self.sections@.len(), |i: int| self.sections@[i]@),
        }
    }
}

/// Errors raised while applying a C0DIFF.
#[derive(Debug, Clone, PartialEq, Eq)]
pub enum DiffError {
    FileNotFound(String),
    /// A section's pattern was not found in the target file.
    PatternNotFound { path: String, section: usize },
    /// A section's pattern matched more than once (must be exactly one).
    PatternAmbiguous { path: String, section: usize, count: usize },
}

/// An apply error as text and numbers.
pub enum DiffErrorView {
    FileNotFound(Seq<char>),
    PatternNotFound { path: Seq<char>, section: int },
    PatternAmbiguous { path: Seq<char>, section: int, count: int },
}

/// The text of an apply error.
pub open spec fn diff_error_text(e: DiffErrorView) -> Seq<char> {
    match e {
        DiffErrorView::FileNotFound(p) => "File not found: "@ + p,
        DiffErrorView::PatternNotFound { path, section } => "Pattern not found in "@ + path
            + " (section "@ + decimal(section as nat) + ")"@,
        DiffErrorView::PatternAmbiguous { path, section, count } => "Pattern found "@ + decimal(
            count as nat,
        ) + " times in "@ + path + " (section "@ + decimal(section as nat)
            + "), expected exactly 1"@,
    }
}

impl DiffError {
    /// The error as a sentence, e.g. `File not found: foo.txt`.
    pub fn message(&self) -> (r: String)
        ensures
            r@ == diff_error_text(self@),
    {
        let mut out = String::new();
        match self {
            DiffError::FileNotFound(p) => {
                out.append("File not found: ");
                out.append(p.as_str());
            },
            DiffError::PatternNotFound { path, section } => {
                out.append("Pattern not found in ");
                out.append(path.as_str());
                out.append(" (section ");
                push_decimal(&mut out, *section);
                out.append(")");
            },
            DiffError::PatternAmbiguous { path, section, count } => {
                out.append("Pattern found ");
                push_decimal(&mut out, *count);
                out.append(" times in ");
                out.append(path.as_str());
                out.append(" (section ");
                push_decimal(&mut out, *section);
                out.append("), expected exactly 1");
            },
        }
        out
    }
}

impl View for DiffError {
    type V = DiffErrorView;

    open spec fn view(&self) -> DiffErrorView {
        match self {
            DiffError::FileNotFound(p) => DiffErrorView::FileNotFound(p@),
            DiffError::PatternNotFound { path, section } => DiffErrorView::PatternNotFound {
                path: path@,
                section: *section as int,
            },
            DiffError::PatternAmbiguous { path, section, count } =>
                DiffErrorView::PatternAmbiguous {
                path: path@,
                section: *section as int,
                count: *count as int,
            },
        }
    }
}

// ---- parsing ----

/// Close a data span into a unit: it completes a pending substitution (whose
/// old text is the last unit, removed) or becomes an anchor.
pub open spec fn flush_units(units: Seq<UnitView>, in_sub: bool, span: Seq<u8>) -> Seq<UnitView> {
    if in_sub {
        let old = if units.len() > 0 {
            match units.last() {
                UnitView::Anchor(b) => b,
                _ => Seq::empty(),
            }
        } else {
            Seq::empty()
        };
        let base = if units.len() > 0 {
            units.drop_last()
        } else {
            units
        };
        base.push(UnitView::Sub { old, new: span })
    } else {
        units.push(UnitView::Anchor(span))
    }
}

/// The logical bytes of `s[a..b]`.
pub open spec fn span_data(s: Seq<u8>, a: int, b: int) -> Seq<u8> {
    unescaped(s.subrange(a, b))
}

/// The units of a section from `p` on, given the units so far, whether a
/// substitution is pending, and where the current data span began; and where
/// the section ends (at GS, FS, EOT or the end of the buffer).
pub open spec fn section_scan(s: Seq<u8>, p: int, ds: int, units: Seq<UnitView>, in_sub: bool) -> (
    Seq<UnitView>,
    int,
)
    decreases s.len() - p,
{
    if p < 0 || p >= s.len() || s[p] == GS || s[p] == FS || s[p] == EOT {
        (
            if p > ds {
                flush_units(units, in_sub, span_data(s, ds, p))
            } else {
                units
            },
            p,
        )
    } else if s[p] == US {
        if p > ds {
            section_scan(s, p + 1, p + 1, flush_units(units, in_sub, span_data(s, ds, p)), false)
        } else {
            section_scan(s, p + 1, p + 1, units, in_sub)
        }
    } else if s[p] == SUB {
        if p > ds {
            section_scan(s, p + 1, p + 1, units.push(UnitView::Anchor(span_data(s, ds, p))), true)
        } else {
            section_scan(s, p + 1, p + 1, units, in_sub)
        }
    } else if s[p] == DLE {
        section_scan(s, clamp(p + 2, s.len() as int), ds, units, in_sub)
    } else {
        section_scan(s, p + 1, ds, units, in_sub)
    }
}

/// The sections of a file block from `p` on, and where the block ends.
pub open spec fn sections_from(s: Seq<u8>, p: int) -> (Seq<Seq<UnitView>>, int)
    decreases s.len() - p,
{
    if p < 0 || p >= s.len() || s[p] == FS || s[p] == EOT {
        (Seq::empty(), p)
    } else if s[p] == GS {
        let (units, next) = section_scan(s, p + 1, p + 1, Seq::empty(), false);
        if next <= p || next > s.len() {
            (Seq::empty(), p)
        } else {
            let (rest, end) = sections_from(s, next);
            (seq![units] + rest, end)
        }
    } else {
        sections_from(s, p + 1)
    }
}

/// The file edits of a C0DIFF from `p` on; EOT ends the diff.
pub open spec fn edits_from(s: Seq<u8>, p: int) -> Seq<FileEditView>
    decreases s.len() - p,
{
    if p < 0 || p >= s.len() || s[p] == EOT {
        Seq::empty()
    } else if s[p] == FS {
        let pe = data_run_end(s, p + 1);
        let (sections, next) = sections_from(s, pe);
        if next <= p || next > s.len() || pe < p + 1 {
            Seq::empty()
        } else {
            seq![FileEditView { path: s.subrange(p + 1, pe), sections }] + edits_from(s, next)
        }
    } else {
        edits_from(s, p + 1)
    }
}

/// The file edits of a whole C0DIFF buffer.
pub open spec fn edits_of(s: Seq<u8>) -> Seq<FileEditView> {
    edits_from(s, 0)
}

proof fn lemma_section_scan(s: Seq<u8>, p: int, ds: int, units: Seq<UnitView>, in_sub: bool)
    requires
        0 <= ds <= p <= s.len(),
    ensures
        p <= section_scan(s, p, ds, units, in_sub).1 <= s.len(),
    decreases s.len() - p,
{
    if !(p >= s.len() || s[p] == GS || s[p] == FS || s[p] == EOT) {
        if s[p] == US {
            if p > ds {
                lemma_section_scan(s, p + 1, p + 1, flush_units(units, in_sub, span_data(s, ds, p)), false);
            } else {
                lemma_section_scan(s, p + 1, p + 1, units, in_sub);
            }
        } else if s[p] == SUB {
            if p > ds {
                lemma_section_scan(s, p + 1, p + 1, units.push(UnitView::Anchor(span_data(s, ds, p))), true);
            } else {
                lemma_section_scan(s, p + 1, p + 1, units, in_sub);
            }
        } else if s[p] == DLE {
            lemma_section_scan(s, clamp(p + 2, s.len() as int), ds, units, in_sub);
        } else {
            lemma_section_scan(s, p + 1, ds, units, in_sub);
        }
    }
}

proof fn lemma_sections_from(s: Seq<u8>, p: int)
    requires
        0 <= p <= s.len(),
    ensures
        p <= sections_from(s, p).1 <= s.len(),
    decreases s.len() - p,
{
    if !(p >= s.len() || s[p] == FS || s[p] == EOT) {
        if s[p] == GS {
            lemma_section_scan(s, p + 1, p + 1, Seq::empty(), false);
            let next = section_scan(s, p + 1, p + 1, Seq::empty(), false).1;
            if next > p && next <= s.len() {
                lemma_sections_from(s, next);
            }
        } else {
            lemma_sections_from(s, p + 1);
        }
    }
}

// Collect data bytes from a span, removing DLE escapes.
fn collect_data(buf: &[u8], start: usize, stop: usize) -> (r: Vec<u8>)
    requires
        start <= stop <= buf@.len(),
    ensures
        r@ == span_data(buf@, start as int, stop as int),
{
    let t = vstd::slice::slice_subrange(buf, start, stop);
    let len = t.len();
    let mut out: Vec<u8> = Vec::new();
    let mut i: usize = 0;
    while i < len
        invariant
            i <= len == t@.len(),
            unescape_from(t@, 0) == out@ + unescape_from(t@, i as int),
        decreases len - i,
    {
        if t[i] == DLE {
            if len - i < 2 {
                i = len;
            } else {
                out.push(t[i + 1]);
                i = i + 2;
            }
        } else {
            out.push(t[i]);
            i = i + 1;
        }
    }
    proof {
        assert(out@ + Seq::<u8>::empty() == out@);
    }
    out
}

fn flush(units: &mut Vec<Unit>, in_sub: bool, span: Vec<u8>)
    ensures
        units_view(final(units)@) == flush_units(units_view(old(units)@), in_sub, span@),
{
    let ghost u0 = units_view(units@);
    if in_sub {
        let old: Vec<u8> = match units.pop() {
            Some(Unit::Anchor(b)) => b,
            _ => Vec::new(),
        };
        proof {
            if u0.len() > 0 {
                assert(units_view(units@) =~= u0.drop_last());
            } else {
                assert(units_view(units@) =~= u0);
            }
        }
        let ghost mid = units@;
        units.push(Unit::Sub { old, new: span });
        assert(units_view(units@) =~= units_view(mid).push(UnitView::Sub { old: old@, new: span@ }));
    } else {
        let ghost mid = units@;
        units.push(Unit::Anchor(span));
        assert(units_view(units@) =~= units_view(mid).push(UnitView::Anchor(span@)));
    }
}

#[verifier::rlimit(40)]
fn parse_section(buf: &[u8], pos: usize) -> (r: (Vec<Unit>, usize))
    requires
        pos <= buf@.len(),
    ensures
        (units_view(r.0@), r.1 as int) == section_scan(buf@, pos as int, pos as int, Seq::empty(), false),
{
    let len = buf.len();
    let ghost s = buf@;
    let mut units: Vec<Unit> = Vec::new();
    let mut in_sub = false;
    let mut data_start = pos;
    let mut p = pos;
    proof {
        assert(units_view(units@) =~= Seq::<UnitView>::empty());
        lemma_section_scan(s, pos as int, pos as int, Seq::empty(), false);
    }
    while p < len && buf[p] != GS && buf[p] != FS && buf[p] != EOT
        invariant
            s == buf@,
            len == s.len(),
            pos <= data_start <= p <= len,
            section_scan(s, pos as int, pos as int, Seq::empty(), false) == section_scan(
                s,
                p as int,
                data_start as int,
                units_view(units@),
                in_sub,
            ),
        decreases len - p,
    {
        let byte = buf[p];
        if byte == US {
            if p > data_start {
                let span = collect_data(buf, data_start, p);
                flush(&mut units, in_sub, span);
                in_sub = false;
            }
            p = p + 1;
            data_start = p;
        } else if byte == SUB {
            if p > data_start {
                let span = collect_data(buf, data_start, p);
                let ghost mid = units@;
                units.push(Unit::Anchor(span));
                assert(units_view(units@) =~= units_view(mid).push(UnitView::Anchor(span@)));
                in_sub = true;
            }
            p = p + 1;
            data_start = p;
        } else if byte == DLE {
            if len - p < 2 {
                p = len;
            } else {
                p = p + 2;
            }
        } else {
            p = p + 1;
        }
    }
    if p > data_start {
        let span = collect_data(buf, data_start, p);
        flush(&mut units, in_sub, span);
    }
    (units, p)
}

fn parse_file(buf: &[u8], pos: usize) -> (r: (FileEdit, usize))
    requires
        pos <= buf@.len(),
    ensures
        r.0@.path == buf@.subrange(pos as int, data_run_end(buf@, pos as int)),
        (r.0@.sections, r.1 as int) == sections_from(buf@, data_run_end(buf@, pos as int)),
        pos <= r.1 <= buf@.len(),
{
    let len = buf.len();
    let ghost s = buf@;
    let path_end = scan_data(buf, pos);
    let path = vstd::slice::slice_to_vec(vstd::slice::slice_subrange(buf, pos, path_end));
    let mut sections: Vec<Section> = Vec::new();
    let mut p = path_end;
    let ghost sv = |v: Seq<Section>| Seq::new(v.len(), |i: int| v[i]@);
    proof {
        lemma_sections_from(s, path_end as int);
        assert(sv(sections@) =~= Seq::<Seq<UnitView>>::empty());
    }
    while p < len && buf[p] != FS && buf[p] != EOT
        invariant
            s == buf@,
            len == s.len(),
            path_end <= p <= len,
            sv == (|v: Seq<Section>| Seq::new(v.len(), |i: int| v[i]@)),
            sections_from(s, path_end as int).1 == sections_from(s, p as int).1,
            sections_from(s, path_end as int).0 == sv(sections@) + sections_from(s, p as int).0,
        decreases len - p,
    {
        if buf[p] == GS {
            let (units, next) = parse_section(buf, p + 1);
            proof {
                lemma_section_scan(s, p + 1, p + 1, Seq::empty(), false);
                let rest = sections_from(s, next as int).0;
                let sec = Section { units };
                assert(sv(sections@.push(sec)) =~= sv(sections@).push(sec@));
                assert(sv(sections@) + (seq![sec@] + rest) =~= sv(sections@).push(sec@) + rest);
            }
            sections.push(Section { units });
            p = next;
        } else {
            p = p + 1;
        }
    }
    proof {
        assert(sv(sections@) + Seq::<Seq<UnitView>>::empty() =~= sv(sections@));
    }
    let edit = FileEdit { path, sections };
    proof {
        assert(edit@.sections =~= sv(sections@));
    }
    (edit, p)
}

/// Parse a C0DIFF buffer into a list of file edits.
pub fn parse(buf: &[u8]) -> (r: Vec<FileEdit>)
    ensures
        Seq::new(r@.len(), |i: int| r@[i]@) == edits_of(buf@),
{
    let len = buf.len();
    let ghost s = buf@;
    let mut edits: Vec<FileEdit> = Vec::new();
    let mut p: usize = 0;
    let ghost ev = |v: Seq<FileEdit>| Seq::new(v.len(), |i: int| v[i]@);
    proof {
        assert(ev(edits@) =~= Seq::<FileEditView>::empty());
    }
    while p < len && buf[p] != EOT
        invariant
            s == buf@,
            len == s.len(),
            p <= len,
            ev == (|v: Seq<FileEdit>| Seq::new(v.len(), |i: int| v[i]@)),
            edits_of(s) == ev(edits@) + edits_from(s, p as int),
        decreases len - p,
    {
        if buf[p] == FS {
            let (edit, next) = parse_file(buf, p + 1);
            proof {
                lemma_data_run(s, p + 1);
                let rest = edits_from(s, next as int);
                assert(ev(edits@.push(edit)) =~= ev(edits@).push(edit@));
                assert(ev(edits@) + (seq![edit@] + rest) =~= ev(edits@).push(edit@) + rest);
            }
            edits.push(edit);
            p = next;
        } else {
            p = p + 1;
        }
    }
    proof {
        assert(ev(edits@) + Seq::<FileEditView>::empty() =~= ev(edits@));
    }
    edits
}

// ---- applying ----

/// `n` occurs in `h` at `i`.
pub open spec fn matches_at(h: Seq<u8>, n: Seq<u8>, i: int) -> bool {
    0 <= i && i + n.len() <= h.len() && h.subrange(i, i + n.len()) == n
}

/// Non-overlapping occurrences of a non-empty `n` in `h[i..]`, found left to
/// right.
pub open spec fn count_from(h: Seq<u8>, n: Seq<u8>, i: int) -> nat
    decreases h.len() - i,
{
    if n.len() == 0 || i < 0 || i + n.len() > h.len() {
        0
    } else if matches_at(h, n, i) {
        1 + count_from(h, n, i + n.len())
    } else {
        count_from(h, n, i + 1)
    }
}

/// Non-overlapping occurrences of `n` in `h` (none for an empty `n`).
pub open spec fn occurrences(h: Seq<u8>, n: Seq<u8>) -> nat {
    count_from(h, n, 0)
}

/// The first index at or after `i` where `n` occurs in `h`, or -1.
pub open spec fn first_match_from(h: Seq<u8>, n: Seq<u8>, i: int) -> int
    decreases h.len() - i,
{
    if i < 0 || i + n.len() > h.len() {
        -1
    } else if matches_at(h, n, i) {
        i
    } else if i >= h.len() {
        -1
    } else {
        first_match_from(h, n, i + 1)
    }
}

/// `h` with its first occurrence of `n` replaced by `r` (unchanged when `n`
/// does not occur).
pub open spec fn replace_first(h: Seq<u8>, n: Seq<u8>, r: Seq<u8>) -> Seq<u8> {
    let i = first_match_from(h, n, 0);
    if i < 0 {
        h
    } else {
        h.subrange(0, i) + r + h.subrange(i + n.len(), h.len() as int)
    }
}

proof fn lemma_first_match_from(h: Seq<u8>, n: Seq<u8>, i: int)
    requires
        0 <= i,
    ensures
        first_match_from(h, n, i) == -1 ==> forall|j: int| i <= j ==> !#[trigger] matches_at(h, n, j),
        first_match_from(h, n, i) != -1 ==> {
            let r = first_match_from(h, n, i);
            &&& i <= r
            &&& matches_at(h, n, r)
            &&& forall|j: int| i <= j < r ==> !#[trigger] matches_at(h, n, j)
        },
    decreases h.len() - i,
{
    if i + n.len() > h.len() {
    } else if matches_at(h, n, i) {
    } else if i >= h.len() {
        assert(h.subrange(i, i + n.len()) =~= n);
    } else {
        lemma_first_match_from(h, n, i + 1);
    }
}

/// One section's rewrite replaces the first occurrence of the pattern:
/// where it does not occur the text is unchanged, and where its first
/// occurrence is at `i` the text is the bytes before `i`, the replacement,
/// then the bytes after the occurrence.
pub proof fn replace_first_replaces_the_first_occurrence(h: Seq<u8>, n: Seq<u8>, r: Seq<u8>, i: int)
    ensures
        (forall|j: int| !#[trigger] matches_at(h, n, j)) ==> replace_first(h, n, r) == h,
        matches_at(h, n, i) && (forall|j: int| 0 <= j < i ==> !#[trigger] matches_at(h, n, j))
            ==> replace_first(h, n, r) == h.subrange(0, i) + r + h.subrange(i + n.len(), h.len() as int),
{
    lemma_first_match_from(h, n, 0);
    let f = first_match_from(h, n, 0);
    if matches_at(h, n, i) && (forall|j: int| 0 <= j < i ==> !#[trigger] matches_at(h, n, j)) {
        assert(f != -1);
        if f < i {
            assert(!matches_at(h, n, f));
        }
        if f > i {
            assert(!matches_at(h, n, i));
        }
    }
}

fn matches_here(h: &[u8], n: &[u8], i: usize) -> (r: bool)
    requires
        i <= h@.len(),
    ensures
        r == matches_at(h@, n@, i as int),
{
    if h.len() - i < n.len() {
        return false;
    }
    let window = vstd::slice::slice_subrange(h, i, i + n.len());
    bytes_eq(window, n)
}

/// Non-overlapping occurrences of `needle` in `haystack`; none for an empty
/// needle.
fn count_occurrences(haystack: &[u8], needle: &[u8]) -> (r: usize)
    ensures
        r == occurrences(haystack@, needle@),
{
    if needle.len() == 0 {
        return 0;
    }
    let hl = crate::scan::slice_len(haystack);
    let nl = needle.len();
    let mut i: usize = 0;
    let mut count: usize = 0;
    while i <= hl && hl - i >= nl
        invariant
            hl == haystack@.len() <= isize::MAX,
            nl == needle@.len() > 0,
            i <= hl + 1,
            count <= i,
            occurrences(haystack@, needle@) == count + count_from(haystack@, needle@, i as int),
        decreases hl + 1 - i,
    {
        if matches_here(haystack, needle, i) {
            count = count + 1;
            i = i + nl;
        } else {
            i = i + 1;
        }
    }
    count
}

/// Replace the first occurrence of `needle` in `haystack` by `replacement`.
fn replace_first_bytes(haystack: &[u8], needle: &[u8], replacement: &[u8]) -> (r: Vec<u8>)
    ensures
        r@ == replace_first(haystack@, needle@, replacement@),
{
    let hl = crate::scan::slice_len(haystack);
    let nl = needle.len();
    let mut i: usize = 0;
    while i <= hl && hl - i >= nl
        invariant
            hl == haystack@.len() <= isize::MAX,
            nl == needle@.len(),
            i <= hl + 1,
            first_match_from(haystack@, needle@, 0) == first_match_from(haystack@, needle@, i as int),
        decreases hl + 1 - i,
    {
        if matches_here(haystack, needle, i) {
            let mut out: Vec<u8> = Vec::new();
            out.extend_from_slice(vstd::slice::slice_subrange(haystack, 0, i));
            out.extend_from_slice(replacement);
            out.extend_from_slice(vstd::slice::slice_subrange(haystack, i + nl, hl));
            return out;
        }
        i = i + 1;
    }
    vstd::slice::slice_to_vec(haystack)
}

/// The text of file contents as an edit target.
pub open spec fn files_view(files: Seq<(String, String)>) -> Seq<(Seq<char>, Seq<char>)> {
    Seq::new(files.len(), |i: int| (files[i].0@, files[i].1@))
}

/// The first file named `key`, or -1.
pub open spec fn find_from(files: Seq<(Seq<char>, Seq<char>)>, key: Seq<char>, i: int) -> int
    decreases files.len() - i,
{
    if i < 0 || i >= files.len() {
        -1
    } else if files[i].0 == key {
        i
    } else {
        find_from(files, key, i + 1)
    }
}

/// The name an edit targets: its path bytes as text.
pub open spec fn edit_key(e: FileEditView) -> Seq<char> {
    utf8_lossy(e.path)
}

/// The search pattern of a section, as text.
pub open spec fn pattern_text(units: Seq<UnitView>) -> Seq<char> {
    utf8_lossy(pattern_of(units))
}

/// The replacement of a section, as text.
pub open spec fn replacement_text(units: Seq<UnitView>) -> Seq<char> {
    utf8_lossy(replacement_of(units))
}

/// The first section from `k` on whose pattern does not occur exactly once in
/// `content`, as an error.
pub open spec fn section_problem(
    path: Seq<char>,
    content: Seq<char>,
    sections: Seq<Seq<UnitView>>,
    k: int,
) -> Option<DiffErrorView>
    decreases sections.len() - k,
{
    if k < 0 || k >= sections.len() {
        None
    } else {
        let c = occurrences(encode_utf8(content), encode_utf8(pattern_text(sections[k])));
        if c == 0 {
            Some(DiffErrorView::PatternNotFound { path, section: k })
        } else if c > 1 {
            Some(DiffErrorView::PatternAmbiguous { path, section: k, count: c as int })
        } else {
            section_problem(path, content, sections, k + 1)
        }
    }
}

/// The first problem met validating edits from `j` on against `files`.
pub open spec fn validation_problem(
    edits: Seq<FileEditView>,
    files: Seq<(Seq<char>, Seq<char>)>,
    j: int,
) -> Option<DiffErrorView>
    decreases edits.len() - j,
{
    if j < 0 || j >= edits.len() {
        None
    } else {
        let key = edit_key(edits[j]);
        let idx = find_from(files, key, 0);
        if idx < 0 {
            Some(DiffErrorView::FileNotFound(key))
        } else {
            match section_problem(key, files[idx].1, edits[j].sections, 0) {
                Some(e) => Some(e),
                None => validation_problem(edits, files, j + 1),
            }
        }
    }
}

/// One section applied to a text: its first pattern occurrence replaced.
pub open spec fn apply_section(content: Seq<char>, units: Seq<UnitView>) -> Seq<char> {
    utf8_lossy(
        replace_first(
            encode_utf8(content),
            encode_utf8(pattern_text(units)),
            encode_utf8(replacement_text(units)),
        ),
    )
}

/// Sections applied in order to a text.
pub open spec fn apply_sections(content: Seq<char>, sections: Seq<Seq<UnitView>>) -> Seq<char>
    decreases sections.len(),
{
    if sections.len() == 0 {
        content
    } else {
        apply_section(apply_sections(content, sections.drop_last()), sections.last())
    }
}

/// The files after the edits: each edit rewrites its target from the
/// original contents, and a later edit of the same file wins.
pub open spec fn applied(edits: Seq<FileEditView>, files: Seq<(Seq<char>, Seq<char>)>) -> Seq<
    (Seq<char>, Seq<char>),
>
    decreases edits.len(),
{
    if edits.len() == 0 {
        files
    } else {
        let prev = applied(edits.drop_last(), files);
        let e = edits.last();
        let idx = find_from(files, edit_key(e), 0);
        if idx < 0 || idx >= prev.len() {
            prev
        } else {
            prev.update(idx, (files[idx].0, apply_sections(files[idx].1, e.sections)))
        }
    }
}

pub proof fn lemma_find_from(files: Seq<(Seq<char>, Seq<char>)>, key: Seq<char>, i: int)
    requires
        0 <= i,
    ensures
        -1 <= find_from(files, key, i) < files.len(),
        find_from(files, key, i) >= 0 ==> find_from(files, key, i) >= i && files[find_from(files, key, i)].0 == key,
    decreases files.len() - i,
{
    if i < files.len() && files[i].0 != key {
        lemma_find_from(files, key, i + 1);
    }
}

pub proof fn lemma_applied_len(edits: Seq<FileEditView>, files: Seq<(Seq<char>, Seq<char>)>)
    ensures
        applied(edits, files).len() == files.len(),
    decreases edits.len(),
{
    if edits.len() > 0 {
        lemma_applied_len(edits.drop_last(), files);
    }
}

fn find_file(files: &Vec<(String, String)>, key: &String) -> (r: Option<usize>)
    ensures
        match r {
            Some(i) => find_from(files_view(files@), key@, 0) == i as int,
            None => find_from(files_view(files@), key@, 0) == -1,
        },
{
    let n = files.len();
    let ghost fv = files_view(files@);
    proof {
        lemma_find_from(fv, key@, 0);
    }
    for i in 0..n
        invariant
            n == files@.len(),
            fv == files_view(files@),
            find_from(fv, key@, 0) == find_from(fv, key@, i as int),
    {
        if files[i].0 == *key {
            return Some(i);
        }
    }
    None
}

/// Apply a C0DIFF to file contents (name, text), returning the modified
/// files in the same order.
///
/// All sections are validated before any edits are made (atomic semantics):
/// each search pattern must occur exactly once in its target file, or the
/// first problem found is returned and nothing is changed. Files not named by
/// the diff are passed through unchanged.
///
/// The files are a list of (name, text) pairs, names meant to be distinct as
/// in a map; an edit applies to the first file of its name, and a later edit
/// of the same file starts again from the original text. The result holds
/// the same names in the same order.
pub fn apply(diff_buf: &[u8], files: &Vec<(String, String)>) -> (r: Result<
    Vec<(String, String)>,
    DiffError,
>)
    ensures
        match r {
            Ok(out) => validation_problem(edits_of(diff_buf@), files_view(files@), 0) is None
                && files_view(out@) == applied(edits_of(diff_buf@), files_view(files@))
                && out@.len() == files@.len()
                && forall|i: int| 0 <= i < out@.len() ==> (#[trigger] out@[i]).0@ == files@[i].0@,
            Err(e) => validation_problem(edits_of(diff_buf@), files_view(files@), 0) == Some(e@),
        },
{
    let edits = parse(diff_buf);
    let ghost ev = edits_of(diff_buf@);
    let ghost fv = files_view(files@);
    let ne = edits.len();
    proof {
        assert(ev.len() == edits@.len());
    }
    // Validate all edits first.
    for j in 0..ne
        invariant
            ne == edits@.len() == ev.len(),
            ev == Seq::new(edits@.len(), |i: int| edits@[i]@),
            ev == edits_of(diff_buf@),
            fv == files_view(files@),
            validation_problem(ev, fv, 0) == validation_problem(ev, fv, j as int),
    {
        let edit = &edits[j];
        let path = bytes_to_string(edit.path.as_slice());
        let found = find_file(files, &path);
        proof {
            assert(edit@ == ev[j as int]);
            lemma_find_from(fv, path@, 0);
        }
        let idx = match found {
            Some(i) => i,
            None => {
                return Err(DiffError::FileNotFound(path));
            },
        };
        let content = files[idx].1.as_str();
        let ns = edit.sections.len();
        let ghost secs = edit@.sections;
        for k in 0..ns
            invariant
                ns == edit.sections@.len() == secs.len(),
                secs == edit@.sections,
                0 <= idx < fv.len(),
                edit@ == ev[j as int],
                0 <= j < ev.len(),
                ev == edits_of(diff_buf@),
                fv == files_view(files@),
                path@ == edit_key(ev[j as int]),
                find_from(fv, path@, 0) == idx,
                validation_problem(ev, fv, 0) == validation_problem(ev, fv, j as int),
                section_problem(path@, fv[idx as int].1, secs, 0) == section_problem(
                    path@,
                    fv[idx as int].1,
                    secs,
                    k as int,
                ),
                content@ == fv[idx as int].1,
        {
            let pattern = bytes_to_string(edit.sections[k].search_pattern().as_slice());
            let count = count_occurrences(content.as_bytes(), pattern.as_str().as_bytes());
            proof {
                assert(edit.sections@[k as int]@ == secs[k as int]);
                assert(count == occurrences(encode_utf8(fv[idx as int].1), encode_utf8(pattern_text(secs[k as int]))));
            }
            if count == 0 {
                let err = DiffError::PatternNotFound { path: path, section: k };
                proof {
                    assert(section_problem(path@, fv[idx as int].1, secs, k as int) == Some(err@));
                    assert(ev[j as int].sections == secs);
                    assert(validation_problem(ev, fv, j as int) == Some(err@));
                }
                return Err(err);
            } else if count > 1 {
                let err = DiffError::PatternAmbiguous { path: path, section: k, count };
                proof {
                    assert(section_problem(path@, fv[idx as int].1, secs, k as int) == Some(err@));
                    assert(ev[j as int].sections == secs);
                    assert(validation_problem(ev, fv, j as int) == Some(err@));
                }
                return Err(err);
            }
        }
    }
    // Apply all edits.
    let nf = files.len();
    let mut results: Vec<(String, String)> = Vec::new();
    for i in 0..nf
        invariant
            nf == files@.len(),
            results@.len() == i,
            files_view(results@) == files_view(files@).take(i as int),
    {
        let a = files[i].0.clone();
        let b = files[i].1.clone();
        results.push((a, b));
        assert(results@[i as int] == (a, b));
        assert(files_view(results@) =~= files_view(files@).take(i + 1));
    }
    proof {
        assert(files_view(results@) =~= fv);
        assert(ev.take(0) =~= Seq::<FileEditView>::empty());
    }
    for j in 0..ne
        invariant
            ne == edits@.len() == ev.len(),
            ev == Seq::new(edits@.len(), |i: int| edits@[i]@),
            fv == files_view(files@),
            validation_problem(ev, fv, j as int) is None,
            files_view(results@) == applied(ev.take(j as int), fv),
    {
        let edit = &edits[j];
        let path = bytes_to_string(edit.path.as_slice());
        let found = find_file(files, &path);
        proof {
            assert(edit@ == ev[j as int]);
            lemma_find_from(fv, path@, 0);
            lemma_applied_len(ev.take(j as int), fv);
            assert(ev.take(j + 1).drop_last() =~= ev.take(j as int));
        }
        let idx = match found {
            Some(i) => i,
            None => {
                proof {
                    assert(false);
                }
                0
            },
        };
        let mut content: String = files[idx].1.clone();
        let ns = edit.sections.len();
        let ghost secs = edit@.sections;
        proof {
            assert(secs.take(0) =~= Seq::<Seq<UnitView>>::empty());
        }
        for k in 0..ns
            invariant
                ns == edit.sections@.len() == secs.len(),
                secs == edit@.sections,
                0 <= idx < fv.len(),
                content@ == apply_sections(fv[idx as int].1, secs.take(k as int)),
        {
            let sec = &edit.sections[k];
            let pattern = bytes_to_string(sec.search_pattern().as_slice());
            let replacement = bytes_to_string(sec.replacement().as_slice());
            let bytes = replace_first_bytes(
                content.as_str().as_bytes(),
                pattern.as_str().as_bytes(),
                replacement.as_str().as_bytes(),
            );
            content = bytes_to_string(bytes.as_slice());
            proof {
                assert(sec@ == secs[k as int]);
                assert(secs.take(k + 1).drop_last() =~= secs.take(k as int));
            }
        }
        proof {
            assert(secs.take(ns as int) =~= secs);
        }
        let key = files[idx].0.clone();
        results.set(idx, (key, content));
        proof {
            assert(files_view(results@) =~= applied(ev.take(j + 1), fv));
            // the next edit validates, as this one did
            assert(validation_problem(ev, fv, j + 1) is None);
        }
    }
    proof {
        assert(ev.take(ne as int) =~= ev);
        lemma_applied_len(ev, fv);
        assert(files_view(results@).len() == results@.len());
        assert(results@.len() == files@.len());
        assert forall|i: int| 0 <= i < results@.len() implies (#[trigger] results@[i]).0@
            == files@[i].0@ by {
            crate::properties::apply_keeps_untargeted_files(ev, fv, i);
            assert(files_view(results@)[i] == (results@[i].0@, results@[i].1@));
        }
    }
    Ok(results)
}

// ---- building ----

fn write_escaped(buf: &mut Vec<u8>, s: &str)
    ensures
        final(buf)@ == old(buf)@ + escape(s.spec_bytes()),
{
    let bytes = s.as_bytes();
    let ghost start = buf@;
    let n = bytes.len();
    for i in 0..n
        invariant
            n == bytes@.len(),
            bytes@ == s.spec_bytes(),
            buf@ == start + escape(bytes@.take(i as int)),
    {
        let byte = bytes[i];
        if byte < 0x20 {
            buf.push(DLE);
        }
        buf.push(byte);
        proof {
            lemma_escape_step(bytes@, i as int);
        }
    }
    proof {
        assert(bytes@.take(n as int) =~= bytes@);
    }
}

/// Build a C0DIFF document: the result is what `f` leaves in a builder that
/// started empty.
pub fn build<F: FnOnce(&mut DiffBuilder)>(f: F) -> (r: Vec<u8>)
    requires
        forall|b: &mut DiffBuilder| #[trigger] f.requires((b,)),
    ensures
        exists|b: &mut DiffBuilder|
            {
                &&& f.ensures((b,), ())
                &&& (*b).view() == Seq::<u8>::empty()
                &&& r@ == (*final(b)).view()
            },
{
    let mut b = DiffBuilder::new();
    f(&mut b);
    b.into_bytes()
}

/// Builder for C0DIFF documents.
pub struct DiffBuilder {
    buf: Vec<u8>,
}

impl DiffBuilder {
    /// The bytes built so far.
    pub closed spec fn view(&self) -> Seq<u8> {
        self.buf@
    }

    pub fn new() -> (r: Self)
        ensures
            r.view() == Seq::<u8>::empty(),
    {
        DiffBuilder { buf: Vec::new() }
    }

    /// Begin a file edit (FS + path), then add its sections in `f`.
    pub fn file<F: FnOnce(&mut DiffBuilder)>(&mut self, path: &str, f: F) -> (r: &mut Self)
        requires
            forall|b: &mut DiffBuilder| #[trigger] f.requires((b,)),
        ensures
            exists|b: &mut DiffBuilder|
                {
                    &&& f.ensures((b,), ())
                    &&& (*b).view() == old(self).view() + seq![FS] + path.spec_bytes()
                    &&& r.view() == (*final(b)).view()
                },
            *final(self) == *final(r),
    {
        self.buf.push(FS);
        self.buf.extend_from_slice(path.as_bytes());
        let mut inner = DiffBuilder::new();
        std::mem::swap(&mut inner.buf, &mut self.buf);
        assert(inner.view() == old(self).view() + seq![FS] + path.spec_bytes());
        f(&mut inner);
        assert(exists|b: &mut DiffBuilder| f.ensures((b,), ()));
        assert(exists|b: &mut DiffBuilder|
            f.ensures((b,), ()) && (*b).view() == old(self).view() + seq![FS] + path.spec_bytes());
        assert(exists|b: &mut DiffBuilder|
            f.ensures((b,), ()) && (*b).view() == old(self).view() + seq![FS] + path.spec_bytes()
                && (*final(b)).view() == inner.view());
        std::mem::swap(&mut inner.buf, &mut self.buf);
        self
    }

    /// Begin a section (GS), then add its units with a [`SectionBuilder`]:
    /// the section holds the units added, with US between them.
    pub fn section<F: FnOnce(&mut SectionBuilder)>(&mut self, f: F) -> (r: &mut Self)
        requires
            forall|b: &mut SectionBuilder| #[trigger] f.requires((b,)),
        ensures
            exists|b: &mut SectionBuilder|
                {
                    &&& f.ensures((b,), ())
                    &&& (*b).view() == old(self).view().push(GS)
                    &&& (*b).at_start()
                    &&& (*b).units() == Seq::<UnitView>::empty()
                    &&& (*b).start() == old(self).view().push(GS)
                    &&& r.view() == (*final(b)).view()
                    &&& r.view() == (*final(b)).start() + section_bytes((*final(b)).units())
                },
            *final(self) == *final(r),
    {
        self.buf.push(GS);
        let mut opened: Vec<u8> = Vec::new();
        std::mem::swap(&mut opened, &mut self.buf);
        let mut sb = SectionBuilder::opening(opened);
        f(&mut sb);
        let ghost sb1 = sb;
        let built = sb.closing();
        self.buf = built;
        assert(exists|b: &mut SectionBuilder| f.ensures((b,), ()) && (*final(b)) == sb1);
        self
    }

    /// Convenience: a single anchored find/replace section.
    pub fn replace(
        &mut self,
        context_before: &str,
        old_text: &str,
        new_text: &str,
        context_after: &str,
    ) -> (r: &mut Self)
        ensures
            r.view() == old(self).view().push(GS) + (if context_before.spec_bytes().len() > 0 {
                escape(context_before.spec_bytes()).push(US)
            } else {
                Seq::empty()
            }) + escape(old_text.spec_bytes()) + seq![SUB] + escape(new_text.spec_bytes()) + (
            if context_after.spec_bytes().len() > 0 {
                seq![US] + escape(context_after.spec_bytes())
            } else {
                Seq::empty()
            }),
            *final(self) == *final(r),
    {
        let ghost start = self.buf@;
        self.buf.push(GS);
        let ghost s1 = self.buf@;
        if !context_before.is_empty() {
            write_escaped(&mut self.buf, context_before);
            self.buf.push(US);
        }
        proof {
            vstd::utf8::encode_utf8_valid_utf8(context_before@);
            if context_before@.len() == 0 {
                assert(context_before.spec_bytes() =~= Seq::<u8>::empty());
            } else {
                vstd::utf8::encode_utf8_first_scalar(context_before@);
            }
        }
        let ghost s2 = self.buf@;
        write_escaped(&mut self.buf, old_text);
        self.buf.push(SUB);
        write_escaped(&mut self.buf, new_text);
        let ghost s3 = self.buf@;
        if !context_after.is_empty() {
            self.buf.push(US);
            write_escaped(&mut self.buf, context_after);
        }
        proof {
            if context_after@.len() == 0 {
                assert(context_after.spec_bytes() =~= Seq::<u8>::empty());
            } else {
                vstd::utf8::encode_utf8_first_scalar(context_after@);
            }
        }
        self
    }

    pub fn into_bytes(self) -> (r: Vec<u8>)
        ensures
            r@ == self.view(),
    {
        self.buf
    }
}

impl Default for DiffBuilder {
    fn default() -> (r: Self)
        ensures
            r.view() == Seq::<u8>::empty(),
    {
        DiffBuilder::new()
    }
}

/// The bytes of one unit as `SectionBuilder` writes it: an anchor's text,
/// or a substitution's old text, SUB and new text; every text escaped.
pub open spec fn unit_bytes(u: UnitView) -> Seq<u8> {
    match u {
        UnitView::Anchor(a) => escape(a),
        UnitView::Sub { old, new } => escape(old) + seq![SUB] + escape(new),
    }
}

/// The bytes of a section's units, with US between them.
pub open spec fn section_bytes(us: Seq<UnitView>) -> Seq<u8>
    decreases us.len(),
{
    if us.len() == 0 {
        Seq::empty()
    } else if us.len() == 1 {
        unit_bytes(us[0])
    } else {
        unit_bytes(us[0]) + seq![US] + section_bytes(us.drop_first())
    }
}

/// A unit whose texts are not empty.
pub open spec fn unit_filled(u: UnitView) -> bool {
    match u {
        UnitView::Anchor(a) => a.len() > 0,
        UnitView::Sub { old, new } => old.len() > 0 && new.len() > 0,
    }
}

/// Builder for the units of a single diff section.
pub struct SectionBuilder {
    buf: Vec<u8>,
    first: bool,
    start: Ghost<Seq<u8>>,
    units: Ghost<Seq<UnitView>>,
}

impl SectionBuilder {
    /// The bytes are those before the section, then its units.
    #[verifier::type_invariant]
    spec fn inv(&self) -> bool {
        &&& self.buf@ == self.start@ + section_bytes(self.units@)
        &&& self.first == (self.units@.len() == 0)
    }

    /// The bytes built so far.
    pub closed spec fn view(&self) -> Seq<u8> {
        self.buf@
    }

    /// No unit has been added yet.
    pub closed spec fn at_start(&self) -> bool {
        self.first
    }

    /// The units added so far.
    pub closed spec fn units(&self) -> Seq<UnitView> {
        self.units@
    }

    /// The bytes before the section.
    pub closed spec fn start(&self) -> Seq<u8> {
        self.start@
    }

    // A builder for a section that starts after `buf`.
    fn opening(buf: Vec<u8>) -> (r: Self)
        ensures
            r.view() == buf@,
            r.at_start(),
            r.units() == Seq::<UnitView>::empty(),
            r.start() == buf@,
    {
        let ghost start = buf@;
        assert(start + section_bytes(Seq::<UnitView>::empty()) =~= start);
        SectionBuilder { buf, first: true, start: Ghost(start), units: Ghost(Seq::empty()) }
    }

    // The bytes, and with them what the section was added to.
    fn closing(self) -> (r: Vec<u8>)
        ensures
            r@ == self.view(),
            r@ == self.start() + section_bytes(self.units()),
    {
        proof {
            use_type_invariant(&self);
        }
        let SectionBuilder { buf, .. } = self;
        buf
    }

    // Moves everything out, leaving a fresh builder behind.
    fn take(&mut self) -> (r: (Vec<u8>, bool, Ghost<Seq<u8>>, Ghost<Seq<UnitView>>))
        ensures
            r.0@ == old(self).view(),
            r.1 == old(self).at_start(),
            r.2@ == old(self).start(),
            r.3@ == old(self).units(),
            r.0@ == r.2@ + section_bytes(r.3@),
            r.1 == (r.3@.len() == 0),
    {
        let mut other = SectionBuilder::opening(Vec::new());
        std::mem::swap(self, &mut other);
        proof {
            use_type_invariant(&other);
        }
        let SectionBuilder { buf, first, start, units } = other;
        (buf, first, start, units)
    }

    // Appends one unit's bytes, with US before it unless it is the first.
    fn add(&mut self, Ghost(u): Ghost<UnitView>, bytes: Vec<u8>)
        requires
            bytes@ == unit_bytes(u),
        ensures
            final(self).view() == old(self).view() + (if old(self).at_start() {
                Seq::empty()
            } else {
                seq![US]
            }) + unit_bytes(u),
            !final(self).at_start(),
            final(self).units() == old(self).units().push(u),
            final(self).start() == old(self).start(),
    {
        let (mut buf, first, start, units) = self.take();
        let ghost before = buf@;
        if !first {
            buf.push(US);
        }
        let n = bytes.len();
        let ghost mid = buf@;
        for k in 0..n
            invariant
                n == bytes@.len(),
                buf@ == mid + bytes@.take(k as int),
        {
            buf.push(bytes[k]);
            assert(bytes@.take(k + 1) =~= bytes@.take(k as int).push(bytes@[k as int]));
        }
        assert(bytes@.take(n as int) =~= bytes@);
        let ghost nu = units@.push(u);
        proof {
            if first {
                assert(units@ =~= Seq::<UnitView>::empty());
                assert(nu =~= seq![u]);
                assert(section_bytes(nu) == unit_bytes(u));
                assert(buf@ =~= start@ + section_bytes(nu));
                assert(buf@ =~= before + Seq::<u8>::empty() + unit_bytes(u));
            } else {
                crate::properties::section_bytes_push(units@, u);
                assert(buf@ =~= start@ + section_bytes(nu));
            }
        }
        *self = SectionBuilder { buf, first: false, start, units: Ghost(nu) };
    }

    /// Add literal anchor text.
    pub fn anchor(&mut self, text: &str) -> (r: &mut Self)
        ensures
            r.view() == old(self).view() + (if old(self).at_start() {
                Seq::empty()
            } else {
                seq![US]
            }) + escape(text.spec_bytes()),
            !r.at_start(),
            r.units() == old(self).units().push(UnitView::Anchor(text.spec_bytes())),
            r.start() == old(self).start(),
            *final(self) == *final(r),
    {
        let mut bytes: Vec<u8> = Vec::new();
        write_escaped(&mut bytes, text);
        self.add(Ghost(UnitView::Anchor(text.spec_bytes())), bytes);
        self
    }

    /// Add a substitution (old to new).
    pub fn sub(&mut self, old_text: &str, new_text: &str) -> (r: &mut Self)
        ensures
            r.view() == old(self).view() + (if old(self).at_start() {
                Seq::empty()
            } else {
                seq![US]
            }) + escape(old_text.spec_bytes()) + seq![SUB] + escape(new_text.spec_bytes()),
            !r.at_start(),
            r.units() == old(self).units().push(
                UnitView::Sub { old: old_text.spec_bytes(), new: new_text.spec_bytes() },
            ),
            r.start() == old(self).start(),
            *final(self) == *final(r),
    {
        let mut bytes: Vec<u8> = Vec::new();
        write_escaped(&mut bytes, old_text);
        bytes.push(SUB);
        write_escaped(&mut bytes, new_text);
        assert(bytes@ =~= escape(old_text.spec_bytes()) + seq![SUB] + escape(new_text.spec_bytes()));
        self.add(Ghost(UnitView::Sub { old: old_text.spec_bytes(), new: new_text.spec_bytes() }), bytes);
        self
    }
}

} // verus!
