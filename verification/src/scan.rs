//! Scanning primitives shared by the readers: data runs, nested STX/ETX
//! scopes, and spans of a buffer.

use vstd::prelude::*;

use crate::tokenizer::data_run_end;
use crate::{DLE, ETX, STX};

verus! {

/// `p`, but no further than `stop`.
pub open spec fn clamp(p: int, stop: int) -> int {
    if p > stop {
        stop
    } else {
        p
    }
}

/// The position just past the ETX that closes a nested scope, scanning from
/// `p` at nesting depth `depth` and never past `stop`. DLE escapes the byte
/// after it; STX opens and ETX closes a level.
pub open spec fn nested_end(s: Seq<u8>, p: int, depth: nat, stop: int) -> int
    decreases stop - p,
{
    if p < 0 || p >= stop || depth == 0 {
        p
    } else if s[p] == STX {
        nested_end(s, p + 1, depth + 1, stop)
    } else if s[p] == ETX {
        nested_end(s, p + 1, (depth - 1) as nat, stop)
    } else if s[p] == DLE {
        nested_end(s, clamp(p + 2, stop), depth, stop)
    } else {
        nested_end(s, p + 1, depth, stop)
    }
}

pub proof fn lemma_nested_end(s: Seq<u8>, p: int, depth: nat, stop: int)
    requires
        0 <= p <= stop,
    ensures
        p <= nested_end(s, p, depth, stop) <= stop,
    decreases stop - p,
{
    if p < stop && depth > 0 {
        if s[p] == STX {
            lemma_nested_end(s, p + 1, depth + 1, stop);
        } else if s[p] == ETX {
            lemma_nested_end(s, p + 1, (depth - 1) as nat, stop);
        } else if s[p] == DLE {
            lemma_nested_end(s, clamp(p + 2, stop), depth, stop);
        } else {
            lemma_nested_end(s, p + 1, depth, stop);
        }
    }
}

pub proof fn lemma_data_run(s: Seq<u8>, i: int)
    requires
        0 <= i <= s.len(),
    ensures
        i <= data_run_end(s, i) <= s.len(),
        forall|k: int| i <= k < data_run_end(s, i) ==> s[k] >= 0x20,
        data_run_end(s, i) < s.len() ==> s[data_run_end(s, i)] < 0x20,
    decreases s.len() - i,
{
    if i < s.len() && s[i] >= 0x20 {
        lemma_data_run(s, i + 1);
    }
}

/// The bytes of each span.
pub open spec fn spans_bytes(s: Seq<u8>, spans: Seq<(int, int)>) -> Seq<Seq<u8>> {
    Seq::new(spans.len(), |i: int| s.subrange(spans[i].0, spans[i].1))
}

/// Spans held as machine offsets, read as integers.
pub open spec fn spans_of(v: Seq<(usize, usize)>) -> Seq<(int, int)> {
    Seq::new(v.len(), |i: int| (v[i].0 as int, v[i].1 as int))
}

/// Every span lies within a buffer of length `len`.
pub open spec fn spans_within(spans: Seq<(int, int)>, len: int) -> bool {
    forall|i: int| 0 <= i < spans.len() ==> 0 <= #[trigger] spans[i].0 <= spans[i].1 <= len
}

pub proof fn lemma_spans_push(v: Seq<(usize, usize)>, x: (usize, usize))
    ensures
        spans_of(v.push(x)) == spans_of(v).push((x.0 as int, x.1 as int)),
{
    assert(spans_of(v.push(x)) =~= spans_of(v).push((x.0 as int, x.1 as int)));
}

/// The length of a byte slice. A slice never spans more than `isize::MAX`
/// bytes, as the documentation of `std::slice::from_raw_parts` requires of
/// every slice.
#[verifier::external_body]
pub(crate) fn slice_len(s: &[u8]) -> (n: usize)
    ensures
        n == s@.len(),
        n <= isize::MAX,
{
    s.len()
}

/// The end of the run of data bytes (`>= 0x20`) starting at `pos`.
pub fn scan_data(buf: &[u8], pos: usize) -> (r: usize)
    requires
        pos <= buf@.len(),
    ensures
        r == data_run_end(buf@, pos as int),
        pos <= r <= buf@.len(),
{
    proof {
        lemma_data_run(buf@, pos as int);
    }
    let mut p = pos;
    while p < buf.len() && buf[p] >= 0x20
        invariant
            pos <= p <= buf@.len(),
            data_run_end(buf@, p as int) == data_run_end(buf@, pos as int),
        decreases buf@.len() - p,
    {
        p = p + 1;
    }
    p
}

/// Skip over a STX/ETX nested scope that opens at `pos`, returning the
/// position after the matching ETX, or `stop` on truncated input.
pub fn skip_nested(buf: &[u8], pos: usize, stop: usize) -> (r: usize)
    requires
        pos < stop <= buf@.len(),
    ensures
        r == nested_end(buf@, pos + 1, 1, stop as int),
        pos < r <= stop,
{
    let mut p = pos + 1;
    let mut depth: usize = 1;
    proof {
        lemma_nested_end(buf@, p as int, 1, stop as int);
    }
    while p < stop && depth > 0
        invariant
            pos < p <= stop <= buf@.len(),
            depth <= p,
            nested_end(buf@, p as int, depth as nat, stop as int) == nested_end(
                buf@,
                pos + 1,
                1,
                stop as int,
            ),
        decreases stop - p,
    {
        let b = buf[p];
        if b == STX {
            depth = depth + 1;
            p = p + 1;
        } else if b == ETX {
            depth = depth - 1;
            p = p + 1;
        } else if b == DLE {
            if stop - p < 2 {
                p = stop;
            } else {
                p = p + 2;
            }
        } else {
            p = p + 1;
        }
    }
    proof {
        lemma_nested_end(buf@, pos + 1, 1, stop as int);
    }
    p
}

} // verus!
