//! Documents: an optional FS file name followed by top-level GS groups.

use vstd::prelude::*;

use vstd::string::StringSliceAdditionalSpecFns;

use crate::scan::{clamp, lemma_data_run, scan_data, slice_len};
use crate::table::{table_at, Record, Table};
use crate::tokenizer::data_run_end;
use crate::{DLE, EOT, FS, GS, SOH};

verus! {

/// The first position at or after `p` that does not hold GS.
pub open spec fn gs_run_end(s: Seq<u8>, p: int) -> int
    decreases s.len() - p,
{
    if p < 0 || p >= s.len() || s[p] != GS {
        p
    } else {
        gs_run_end(s, p + 1)
    }
}

/// Top-level groups from `p` on, as (GS offset, name start, name end). A run
/// of two or more GS opens a deeper section, which is skipped with its name.
/// Scanning stops at EOT.
pub open spec fn groups_from(s: Seq<u8>, p: int) -> Seq<(int, int, int)>
    decreases s.len() - p,
{
    if p < 0 || p >= s.len() || s[p] == EOT {
        Seq::empty()
    } else if s[p] == GS {
        let q = gs_run_end(s, p);
        let e = data_run_end(s, q);
        if e <= p || e > s.len() {
            Seq::empty()
        } else if q == p + 1 {
            seq![(p, q, e)] + groups_from(s, e)
        } else {
            groups_from(s, e)
        }
    } else {
        groups_from(s, p + 1)
    }
}

/// The end of the group content that continues at `p`: the next FS, EOT or
/// single GS, or the end of the buffer.
pub open spec fn group_end_from(s: Seq<u8>, p: int) -> int
    decreases s.len() - p,
{
    if p < 0 || p >= s.len() {
        s.len() as int
    } else if s[p] == FS || s[p] == EOT {
        p
    } else if s[p] == GS {
        let q = gs_run_end(s, p);
        let e = data_run_end(s, q);
        if q == p + 1 || e <= p || e > s.len() {
            p
        } else {
            group_end_from(s, e)
        }
    } else if s[p] == DLE {
        group_end_from(s, clamp(p + 2, s.len() as int))
    } else {
        group_end_from(s, p + 1)
    }
}

/// The end of the last group, whose GS byte is at `start`.
pub open spec fn group_end(s: Seq<u8>, start: int) -> int {
    group_end_from(s, data_run_end(s, start + 1))
}

/// Where a document's groups begin: after the FS file name, if any.
pub open spec fn body_start(s: Seq<u8>) -> int {
    if s.len() > 0 && s[0] == FS {
        data_run_end(s, 1)
    } else {
        0
    }
}

/// What a document holds: its file name, the span of each top-level group
/// and each group's name.
#[verifier::ext_equal]
pub struct DocumentView {
    pub name: Seq<u8>,
    pub groups: Seq<(int, int)>,
    pub group_names: Seq<Seq<u8>>,
}

/// The document in `s`.
pub open spec fn document_of(s: Seq<u8>) -> DocumentView {
    let g = groups_from(s, body_start(s));
    DocumentView {
        name: if s.len() > 0 && s[0] == FS {
            s.subrange(1, data_run_end(s, 1))
        } else {
            Seq::empty()
        },
        groups: Seq::new(
            g.len(),
            |i: int|
                (
                    g[i].0,
                    if i + 1 < g.len() {
                        g[i + 1].0
                    } else {
                        group_end(s, g[i].0)
                    },
                ),
        ),
        group_names: Seq::new(g.len(), |i: int| s.subrange(g[i].1, g[i].2)),
    }
}

/// The name of the group whose GS byte is at `start` and which ends at `end`.
pub open spec fn group_name_of(s: Seq<u8>, start: int, end: int) -> Seq<u8> {
    s.subrange(start + 1, clamp(data_run_end(s, start + 1), end))
}

pub(crate) proof fn lemma_gs_run_end(s: Seq<u8>, p: int)
    requires
        0 <= p <= s.len(),
    ensures
        p <= gs_run_end(s, p) <= s.len(),
        forall|k: int| p <= k < gs_run_end(s, p) ==> s[k] == GS,
        gs_run_end(s, p) < s.len() ==> s[gs_run_end(s, p)] != GS,
    decreases s.len() - p,
{
    if p < s.len() && s[p] == GS {
        lemma_gs_run_end(s, p + 1);
    }
}

/// Group offsets are increasing, lie in the buffer, hold GS, and each
/// name lies within the buffer right after its GS.
pub open spec fn groups_ok(s: Seq<u8>, g: Seq<(int, int, int)>, lo: int) -> bool {
    &&& forall|i: int| 0 <= i < g.len() ==> lo <= #[trigger] g[i].0 < s.len()
    &&& forall|i: int| 0 <= i < g.len() ==> s[#[trigger] g[i].0] == GS
    &&& forall|i: int| 0 <= i < g.len() ==> (#[trigger] g[i]).1 == g[i].0 + 1 && g[i].1 <= g[i].2 <= s.len()
    &&& forall|i: int, j: int| 0 <= i < j < g.len() ==> (#[trigger] g[i]).2 <= (#[trigger] g[j]).0
}

proof fn lemma_groups_from(s: Seq<u8>, p: int)
    requires
        0 <= p <= s.len(),
    ensures
        groups_ok(s, groups_from(s, p), p),
    decreases s.len() - p,
{
    if p < s.len() && s[p] != EOT {
        if s[p] == GS {
            lemma_gs_run_end(s, p);
            let q = gs_run_end(s, p);
            lemma_data_run(s, q);
            let e = data_run_end(s, q);
            if e > p && e <= s.len() {
                lemma_groups_from(s, e);
                let rest = groups_from(s, e);
                if q == p + 1 {
                    let g = seq![(p, q, e)] + rest;
                    assert forall|i: int, j: int| 0 <= i < j < g.len() implies (#[trigger] g[i]).2
                        <= (#[trigger] g[j]).0 by {
                        if i > 0 {
                            assert(g[i] == rest[i - 1]);
                            assert(g[j] == rest[j - 1]);
                        } else {
                            assert(g[j] == rest[j - 1]);
                        }
                    }
                    assert forall|i: int| 0 <= i < g.len() implies p <= #[trigger] g[i].0 < s.len()
                        by {
                        if i > 0 {
                            assert(g[i] == rest[i - 1]);
                        }
                    }
                    assert forall|i: int| 0 <= i < g.len() implies s[#[trigger] g[i].0] == GS by {
                        if i > 0 {
                            assert(g[i] == rest[i - 1]);
                        }
                    }
                    assert forall|i: int| 0 <= i < g.len() implies (#[trigger] g[i]).1 == g[i].0
                        + 1 && g[i].1 <= g[i].2 <= s.len() by {
                        if i > 0 {
                            assert(g[i] == rest[i - 1]);
                        }
                    }
                }
            }
        } else {
            lemma_groups_from(s, p + 1);
        }
    }
}

proof fn lemma_group_end_from(s: Seq<u8>, p: int)
    requires
        0 <= p <= s.len(),
    ensures
        p <= group_end_from(s, p) <= s.len(),
    decreases s.len() - p,
{
    if p < s.len() && s[p] != FS && s[p] != EOT {
        if s[p] == GS {
            lemma_gs_run_end(s, p);
            let q = gs_run_end(s, p);
            lemma_data_run(s, q);
            let e = data_run_end(s, q);
            if !(q == p + 1 || e <= p || e > s.len()) {
                lemma_group_end_from(s, e);
            }
        } else if s[p] == DLE {
            lemma_group_end_from(s, clamp(p + 2, s.len() as int));
        } else {
            lemma_group_end_from(s, p + 1);
        }
    }
}

/// The triples of machine offsets held by the index, read as integers.
pub open spec fn triples_of(offsets: Seq<usize>, names: Seq<(usize, usize)>) -> Seq<(int, int, int)> {
    Seq::new(offsets.len(), |i: int| (offsets[i] as int, names[i].0 as int, names[i].1 as int))
}

/// Navigator for a full C0DATA document.
///
/// Walks a buffer containing FS/GS/RS/US structure and gives access to the
/// file, its groups, records, and fields as slices of the buffer.
proof fn lemma_group_name_ends(s: Seq<u8>, p: int)
    requires
        0 <= p <= s.len(),
    ensures
        forall|i: int|
            0 <= i < groups_from(s, p).len() ==> (#[trigger] groups_from(s, p)[i]).2 == data_run_end(
                s,
                groups_from(s, p)[i].1,
            ),
    decreases s.len() - p,
{
    if p < s.len() && s[p] != EOT {
        if s[p] == GS {
            lemma_gs_run_end(s, p);
            let q = gs_run_end(s, p);
            lemma_data_run(s, q);
            let e = data_run_end(s, q);
            if e > p && e <= s.len() {
                lemma_group_name_ends(s, e);
                let rest = groups_from(s, e);
                if q == p + 1 {
                    let g = seq![(p, q, e)] + rest;
                    assert forall|i: int| 0 <= i < g.len() implies (#[trigger] g[i]).2 == data_run_end(
                        s,
                        g[i].1,
                    ) by {
                        if i > 0 {
                            assert(g[i] == rest[i - 1]);
                        }
                    }
                    assert(groups_from(s, p) == g);
                } else {
                    assert(groups_from(s, p) == rest);
                }
            }
        } else {
            lemma_group_name_ends(s, p + 1);
            assert(groups_from(s, p) == groups_from(s, p + 1));
        }
    }
}

/// Each group of a document opens with its GS byte, and its name, read
/// from its span, is the name the document lists for it.
pub proof fn group_name_matches(s: Seq<u8>, i: int)
    requires
        0 <= i < document_of(s).groups.len(),
    ensures
        ({
            let d = document_of(s);
            &&& d.groups[i].0 < d.groups[i].1 <= s.len()
            &&& s[d.groups[i].0] == GS
            &&& group_name_of(s, d.groups[i].0, d.groups[i].1) == d.group_names[i]
        }),
{
    let b = body_start(s);
    if s.len() > 0 && s[0] == FS {
        lemma_data_run(s, 1);
    }
    lemma_groups_from(s, b);
    lemma_group_name_ends(s, b);
    let g = groups_from(s, b);
    let d = document_of(s);
    assert(g[i].1 == g[i].0 + 1 && g[i].1 <= g[i].2 <= s.len());
    let end = d.groups[i].1;
    if i + 1 < g.len() {
        assert(g[i].2 <= g[i + 1].0);
    } else {
        lemma_data_run(s, g[i].0 + 1);
        lemma_group_end_from(s, data_run_end(s, g[i].0 + 1));
    }
    assert(clamp(data_run_end(s, g[i].0 + 1), end) == g[i].2);
}

pub struct Document<'a> {
    buf: &'a [u8],
    name: (usize, usize),
    group_offsets: Vec<usize>,
    group_names: Vec<(usize, usize)>,
}

impl<'a> Document<'a> {
    #[verifier::type_invariant]
    spec fn inv(&self) -> bool {
        &&& self.group_offsets@.len() == self.group_names@.len()
        &&& self.buf@.len() <= isize::MAX
        &&& triples_of(self.group_offsets@, self.group_names@) == groups_from(
            self.buf@,
            body_start(self.buf@),
        )
        &&& self.name == (if self.buf@.len() > 0 && self.buf@[0] == FS {
            (1usize, data_run_end(self.buf@, 1) as usize)
        } else {
            (0usize, 0usize)
        })
        &&& self.name.0 <= self.name.1 <= self.buf@.len()
        &&& body_start(self.buf@) <= self.buf@.len()
        &&& groups_ok(self.buf@, groups_from(self.buf@, body_start(self.buf@)), 0)
    }

    /// The indexed document.
    pub closed spec fn view(&self) -> DocumentView {
        document_of(self.buf@)
    }

    /// The buffer the document reads.
    pub closed spec fn source(&self) -> Seq<u8> {
        self.buf@
    }

    /// A document is the one its buffer holds.
    pub proof fn lemma_view(&self)
        ensures
            self.view() == document_of(self.source()),
    {
    }

    pub fn new(buf: &'a [u8]) -> (d: Self)
        ensures
            d.view() == document_of(buf@),
            d.source() == buf@,
    {
        let len = slice_len(buf);
        let ghost s = buf@;
        let mut pos: usize = 0;
        let mut name: (usize, usize) = (0, 0);
        if len > 0 && buf[0] == FS {
            pos = scan_data(buf, 1);
            name = (1, pos);
        }
        let ghost start = pos as int;
        proof {
            lemma_groups_from(s, start);
        }
        let mut group_offsets: Vec<usize> = Vec::new();
        let mut group_names: Vec<(usize, usize)> = Vec::new();
        proof {
            assert(triples_of(group_offsets@, group_names@) =~= Seq::<(int, int, int)>::empty());
        }
        while pos < len && buf[pos] != EOT
            invariant
                s == buf@,
                len == s.len(),
                start <= pos <= len,
                group_offsets@.len() == group_names@.len(),
                groups_from(s, start) == triples_of(group_offsets@, group_names@) + groups_from(
                    s,
                    pos as int,
                ),
            decreases len - pos,
        {
            let byte = buf[pos];
            if byte == GS {
                let gs_pos = pos;
                proof {
                    lemma_gs_run_end(s, pos as int);
                }
                let mut count: usize = 0;
                while pos < len && buf[pos] == GS
                    invariant
                        s == buf@,
                        len == s.len(),
                        gs_pos <= pos <= len,
                        count == pos - gs_pos,
                        gs_run_end(s, pos as int) == gs_run_end(s, gs_pos as int),
                    decreases len - pos,
                {
                    count = count + 1;
                    pos = pos + 1;
                }
                let q = pos;
                pos = scan_data(buf, q);
                if count == 1 {
                    proof {
                        let t = triples_of(group_offsets@, group_names@);
                        let rest = groups_from(s, pos as int);
                        assert(triples_of(group_offsets@.push(gs_pos), group_names@.push((q, pos)))
                            =~= t.push((gs_pos as int, q as int, pos as int)));
                        assert(t + (seq![(gs_pos as int, q as int, pos as int)] + rest) == t.push(
                            (gs_pos as int, q as int, pos as int),
                        ) + rest);
                    }
                    group_offsets.push(gs_pos);
                    group_names.push((q, pos));
                }
            } else {
                pos = pos + 1;
            }
        }
        proof {
            assert(groups_from(s, start) == triples_of(group_offsets@, group_names@)) by {
                assert(groups_from(s, pos as int) =~= Seq::<(int, int, int)>::empty());
                assert(triples_of(group_offsets@, group_names@) + Seq::<(int, int, int)>::empty()
                    =~= triples_of(group_offsets@, group_names@));
            }
            if len > 0 {
                lemma_data_run(s, 1);
            }
        }
        Document { buf, name, group_offsets, group_names }
    }

    /// Document/file name (text after FS). Empty if no FS is present.
    pub fn name(&self) -> (r: &'a [u8])
        ensures
            r@ == self.view().name,
    {
        proof {
            use_type_invariant(self);
            if self.buf@.len() > 0 {
                lemma_data_run(self.buf@, 1);
            }
        }
        vstd::slice::slice_subrange(self.buf, self.name.0, self.name.1)
    }

    /// Number of top-level groups.
    pub fn group_count(&self) -> (r: usize)
        ensures
            r == self.view().groups.len(),
    {
        proof {
            use_type_invariant(self);
            assert(triples_of(self.group_offsets@, self.group_names@).len()
                == self.group_offsets@.len());
        }
        self.group_offsets.len()
    }

    /// Access a group by index.
    pub fn group(&self, i: usize) -> (r: Group<'a>)
        requires
            i < self.view().groups.len(),
        ensures
            r.source() == self.source(),
            (r.start(), r.end()) == self.view().groups[i as int],
            0 <= r.start() < r.end() <= r.source().len(),
            r.source()[r.start()] == GS,
    {
        proof {
            use_type_invariant(self);
        }
        let ghost g = groups_from(self.buf@, body_start(self.buf@));
        proof {
            assert(triples_of(self.group_offsets@, self.group_names@).len()
                == self.group_offsets@.len());
            assert(triples_of(self.group_offsets@, self.group_names@)[i as int] == g[i as int]);
        }
        let n = self.group_offsets.len();
        let gs_start = self.group_offsets[i];
        let gs_end = if i + 1 < n {
            proof {
                assert(triples_of(self.group_offsets@, self.group_names@)[i + 1] == g[i + 1]);
                assert(g[i as int].2 <= g[i + 1].0);
            }
            self.group_offsets[i + 1]
        } else {
            self.find_end(gs_start)
        };
        proof {
            assert(groups_ok(self.buf@, g, 0));
            assert(g[i as int].0 == gs_start);
        }
        Group { buf: self.buf, start: gs_start, end: gs_end }
    }

    /// Access a group by name, or `None` if no such group exists; the first
    /// group with that name wins.
    pub fn group_by_name(&self, name: &str) -> (r: Option<Group<'a>>)
        ensures
            match r {
                Some(g) => exists|i: int|
                    {
                        &&& 0 <= i < self.view().groups.len()
                        &&& self.view().group_names[i] == name.spec_bytes()
                        &&& forall|k: int|
                            0 <= k < i ==> self.view().group_names[k] != name.spec_bytes()
                        &&& g.source() == self.source()
                        &&& (g.start(), g.end()) == self.view().groups[i]
                        &&& 0 <= g.start() < g.end() <= g.source().len()
                        &&& g.source()[g.start()] == GS
                    },
                None => forall|i: int|
                    0 <= i < self.view().groups.len() ==> self.view().group_names[i]
                        != name.spec_bytes(),
            },
    {
        proof {
            use_type_invariant(self);
        }
        let needle = name.as_bytes();
        let n = self.group_names.len();
        let ghost g = groups_from(self.buf@, body_start(self.buf@));
        for i in 0..n
            invariant
                n == self.group_names@.len() == self.view().groups.len(),
                needle@ == name.spec_bytes(),
                g == groups_from(self.buf@, body_start(self.buf@)),
                triples_of(self.group_offsets@, self.group_names@) == g,
                groups_ok(self.buf@, g, 0),
                forall|k: int| 0 <= k < i ==> self.view().group_names[k] != name.spec_bytes(),
        {
            let (s, e) = self.group_names[i];
            proof {
                assert(triples_of(self.group_offsets@, self.group_names@)[i as int] == g[i as int]);
            }
            let candidate = vstd::slice::slice_subrange(self.buf, s, e);
            if bytes_eq(candidate, needle) {
                let grp = self.group(i);
                return Some(grp);
            }
        }
        None
    }

    /// All groups, in order.
    pub fn groups(&self) -> (r: Vec<Group<'a>>)
        ensures
            r@.len() == self.view().groups.len(),
            forall|i: int|
                0 <= i < r@.len() ==> (#[trigger] r@[i]).source() == self.source() && (
                r@[i].start(),
                r@[i].end(),
            ) == self.view().groups[i],
    {
        let n = self.group_count();
        let mut out: Vec<Group<'a>> = Vec::new();
        for i in 0..n
            invariant
                n == self.view().groups.len(),
                out@.len() == i,
                forall|k: int|
                    0 <= k < i ==> (#[trigger] out@[k]).source() == self.source() && (
                    out@[k].start(),
                    out@[k].end(),
                ) == self.view().groups[k],
        {
            out.push(self.group(i));
        }
        out
    }

    /// All group names.
    pub fn group_names(&self) -> (r: Vec<&'a [u8]>)
        ensures
            r@.len() == self.view().group_names.len(),
            forall|i: int| 0 <= i < r@.len() ==> (#[trigger] r@[i])@ == self.view().group_names[i],
    {
        proof {
            use_type_invariant(self);
        }
        let ghost g = groups_from(self.buf@, body_start(self.buf@));
        let n = self.group_names.len();
        let mut out: Vec<&'a [u8]> = Vec::new();
        for i in 0..n
            invariant
                n == self.group_names@.len() == self.view().group_names.len(),
                triples_of(self.group_offsets@, self.group_names@) == g,
                g == groups_from(self.buf@, body_start(self.buf@)),
                groups_ok(self.buf@, g, 0),
                out@.len() == i,
                forall|k: int| 0 <= k < i ==> (#[trigger] out@[k])@ == self.view().group_names[k],
        {
            let (s, e) = self.group_names[i];
            proof {
                assert(triples_of(self.group_offsets@, self.group_names@)[i as int] == g[i as int]);
            }
            out.push(vstd::slice::slice_subrange(self.buf, s, e));
        }
        out
    }

    fn find_end(&self, gs_start: usize) -> (r: usize)
        requires
            gs_start < self.source().len(),
        ensures
            r == group_end(self.source(), gs_start as int),
            gs_start < r <= self.source().len(),
    {
        let buf = self.buf;
        let len = buf.len();
        let ghost s = buf@;
        let mut pos = scan_data(buf, gs_start + 1);
        proof {
            lemma_group_end_from(s, pos as int);
        }
        while pos < len
            invariant
                s == buf@,
                s == self.source(),
                len == s.len(),
                gs_start < pos <= len,
                group_end_from(s, pos as int) == group_end(s, gs_start as int),
            decreases len - pos,
        {
            let byte = buf[pos];
            if byte == FS || byte == EOT {
                return pos;
            }
            if byte == GS {
                proof {
                    lemma_gs_run_end(s, pos as int);
                }
                let mut peek = pos;
                while peek < len && buf[peek] == GS
                    invariant
                        s == buf@,
                        len == s.len(),
                        pos <= peek <= len,
                        gs_run_end(s, peek as int) == gs_run_end(s, pos as int),
                    decreases len - peek,
                {
                    peek = peek + 1;
                }
                if peek - pos == 1 {
                    return pos;
                }
                pos = scan_data(buf, peek);
            } else if byte == DLE {
                if len - pos < 2 {
                    pos = len;
                } else {
                    pos = pos + 2;
                }
            } else {
                pos = pos + 1;
            }
        }
        pos
    }
}

/// Compare two byte slices.
pub fn bytes_eq(a: &[u8], b: &[u8]) -> (r: bool)
    ensures
        r == (a@ == b@),
{
    if a.len() != b.len() {
        return false;
    }
    let n = a.len();
    for i in 0..n
        invariant
            n == a@.len() == b@.len(),
            forall|k: int| 0 <= k < i ==> a@[k] == b@[k],
    {
        if a[i] != b[i] {
            return false;
        }
    }
    assert(a@ =~= b@);
    true
}

/// A group within a document. Can be read as a [`Table`] or as
/// document-mode content.
pub struct Group<'a> {
    buf: &'a [u8],
    start: usize,
    end: usize,
}

impl<'a> Group<'a> {
    #[verifier::type_invariant]
    spec fn inv(&self) -> bool {
        self.start < self.end <= self.buf@.len()
    }

    /// The buffer the group belongs to.
    pub closed spec fn source(&self) -> Seq<u8> {
        self.buf@
    }

    /// Offset of the group's GS byte.
    pub closed spec fn start(&self) -> int {
        self.start as int
    }

    /// Offset past the last byte of the group.
    pub closed spec fn end(&self) -> int {
        self.end as int
    }

    /// Group name.
    pub fn name(&self) -> (r: &'a [u8])
        ensures
            r@ == group_name_of(self.source(), self.start(), self.end()),
    {
        proof {
            use_type_invariant(self);
            lemma_data_run(self.buf@, self.start + 1);
        }
        let mut pos = self.start + 1;
        let name_start = pos;
        while pos < self.end && self.buf[pos] >= 0x20
            invariant
                name_start <= pos <= self.end <= self.buf@.len(),
                name_start == self.start + 1,
                pos <= data_run_end(self.buf@, name_start as int),
                data_run_end(self.buf@, name_start as int) < self.buf@.len() ==> self.buf@[data_run_end(
                    self.buf@,
                    name_start as int,
                )] < 0x20,
                forall|k: int| name_start <= k < pos ==> self.buf@[k] >= 0x20,
            decreases self.end - pos,
        {
            pos = pos + 1;
        }
        proof {
            lemma_data_run(self.buf@, name_start as int);
            let d = data_run_end(self.buf@, name_start as int);
            if pos < self.end {
                assert(self.buf@[pos as int] < 0x20);
                assert(pos == d);
            } else {
                assert(pos <= d) by {
                    if pos > d {
                        assert(self.buf@[d] >= 0x20);
                    }
                }
            }
        }
        vstd::slice::slice_subrange(self.buf, name_start, pos)
    }

    /// Access as a [`Table`] (for tabular or key-value data).
    pub fn table(&self) -> (r: Table<'a>)
        ensures
            r.view() == table_at(self.source(), self.start()),
            r.source() == self.source(),
    {
        Table::with_offset(self.buf, self.start)
    }

    /// Whether this group has an SOH header right after its name.
    pub fn has_header(&self) -> (r: bool)
        ensures
            r == ({
                let p = clamp(data_run_end(self.source(), self.start() + 1), self.end());
                p < self.end() && self.source()[p] == SOH
            }),
    {
        let name = self.name();
        proof {
            use_type_invariant(self);
            lemma_data_run(self.buf@, self.start + 1);
        }
        let pos = self.start + 1 + name.len();
        pos < self.end && self.buf[pos] == SOH
    }

    /// Access record by index.
    pub fn record(&self, i: usize) -> (r: Record<'a>)
        requires
            i < table_at(self.source(), self.start()).records.len(),
        ensures
            r.view() == table_at(self.source(), self.start()).records[i as int],
    {
        self.table().record(i)
    }

    /// Number of records.
    pub fn record_count(&self) -> (r: usize)
        ensures
            r == table_at(self.source(), self.start()).records.len(),
    {
        self.table().record_count()
    }

    /// Raw bytes of this group.
    pub fn raw(&self) -> (r: &'a [u8])
        ensures
            r@ == self.source().subrange(self.start(), self.end()),
    {
        proof {
            use_type_invariant(self);
        }
        vstd::slice::slice_subrange(self.buf, self.start, self.end)
    }
}

} // verus!
