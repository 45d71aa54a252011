//! Escapes left open (a DLE with no byte after it), and how canonical form
//! carries over when bytes are appended.

use vstd::prelude::*;

use crate::builder::{
    escape, escape_byte, escaped_all, group_bytes, header_bytes, is_name, joined, record_bytes,
    repeated,
};
use crate::properties::structural;
use crate::{canonical_from, is_canonical, DLE, EOT, GS, RS, SOH, US};

verus! {

/// No escape is left open in `s[i..]`: every DLE has a byte after it.
pub open spec fn escapes_closed(s: Seq<u8>, i: int) -> bool
    decreases s.len() - i,
{
    if i < 0 || i >= s.len() {
        true
    } else if s[i] == DLE {
        i + 1 < s.len() && escapes_closed(s, i + 2)
    } else {
        escapes_closed(s, i + 1)
    }
}

proof fn lemma_closed_concat_from(a: Seq<u8>, b: Seq<u8>, i: int)
    requires
        0 <= i <= a.len(),
        escapes_closed(a, i),
        escapes_closed(b, 0),
    ensures
        escapes_closed(a + b, i),
    decreases a.len() + b.len() - i,
{
    if i < a.len() {
        assert((a + b)[i] == a[i]);
        if a[i] == DLE {
            assert((a + b)[i + 1] == a[i + 1]);
            lemma_closed_concat_from(a, b, i + 2);
        } else {
            lemma_closed_concat_from(a, b, i + 1);
        }
    } else {
        lemma_closed_shift(a, b, 0);
    }
}

proof fn lemma_closed_shift(a: Seq<u8>, b: Seq<u8>, j: int)
    requires
        0 <= j <= b.len(),
        escapes_closed(b, j),
    ensures
        escapes_closed(a + b, a.len() + j),
    decreases b.len() - j,
{
    if j < b.len() {
        assert((a + b)[a.len() + j] == b[j]);
        if b[j] == DLE {
            assert((a + b)[a.len() + j + 1] == b[j + 1]);
            lemma_closed_shift(a, b, j + 2);
        } else {
            lemma_closed_shift(a, b, j + 1);
        }
    }
}

/// Closed escapes stay closed when closed bytes follow.
pub broadcast proof fn lemma_closed_concat(a: Seq<u8>, b: Seq<u8>)
    requires
        escapes_closed(a, 0),
        escapes_closed(b, 0),
    ensures
        #[trigger] escapes_closed(a + b, 0),
{
    lemma_closed_concat_from(a, b, 0);
}

/// A byte other than DLE keeps escapes closed.
pub broadcast proof fn lemma_closed_push(a: Seq<u8>, x: u8)
    requires
        escapes_closed(a, 0),
        x != DLE,
    ensures
        #[trigger] escapes_closed(a.push(x), 0),
{
    assert(escapes_closed(seq![x], 0)) by {
        assert(escapes_closed(seq![x], 1));
    }
    assert(a.push(x) =~= a + seq![x]);
    lemma_closed_concat_from(a, seq![x], 0);
}

/// An escape pair keeps escapes closed.
pub proof fn lemma_closed_pair(a: Seq<u8>, x: u8)
    requires
        escapes_closed(a, 0),
    ensures
        escapes_closed(a.push(DLE).push(x), 0),
{
    let p = seq![DLE, x];
    assert(escapes_closed(p, 0)) by {
        assert(escapes_closed(p, 2));
    }
    assert(a.push(DLE).push(x) =~= a + p);
    lemma_closed_concat_from(a, p, 0);
}

/// With no escape left open, an EOT appended stands unescaped, so the bytes
/// are not canonical.
pub proof fn lemma_closed_then_eot(s: Seq<u8>, i: int)
    requires
        0 <= i <= s.len(),
        escapes_closed(s, i),
    ensures
        !canonical_from(s.push(EOT), i),
    decreases s.len() - i,
{
    let t = s.push(EOT);
    if i < s.len() {
        assert(t[i] == s[i]);
        if s[i] == DLE {
            assert(t[i + 1] == s[i + 1]);
            lemma_closed_then_eot(s, i + 2);
        } else {
            lemma_closed_then_eot(s, i + 1);
        }
    } else {
        assert(t[i] == EOT);
    }
}

proof fn lemma_canon_concat_from(a: Seq<u8>, b: Seq<u8>, i: int)
    requires
        0 <= i <= a.len(),
        canonical_from(a, i),
        is_canonical(b),
    ensures
        canonical_from(a + b, i),
    decreases a.len() + b.len() - i,
{
    if i < a.len() {
        assert((a + b)[i] == a[i]);
        if a[i] == DLE {
            assert((a + b)[i + 1] == a[i + 1]);
            lemma_canon_concat_from(a, b, i + 2);
        } else {
            lemma_canon_concat_from(a, b, i + 1);
        }
    } else {
        lemma_canon_shift(a, b, 0);
    }
}

proof fn lemma_canon_shift(a: Seq<u8>, b: Seq<u8>, j: int)
    requires
        0 <= j <= b.len(),
        canonical_from(b, j),
    ensures
        canonical_from(a + b, a.len() + j),
    decreases b.len() - j,
{
    if j < b.len() {
        assert((a + b)[a.len() + j] == b[j]);
        if b[j] == DLE {
            assert((a + b)[a.len() + j + 1] == b[j + 1]);
            lemma_canon_shift(a, b, j + 2);
        } else {
            lemma_canon_shift(a, b, j + 1);
        }
    }
}

/// Canonical bytes followed by canonical bytes are canonical.
pub proof fn lemma_canon_concat(a: Seq<u8>, b: Seq<u8>)
    requires
        is_canonical(a),
        is_canonical(b),
    ensures
        is_canonical(a + b),
{
    lemma_canon_concat_from(a, b, 0);
}

proof fn lemma_canon_single(x: u8)
    requires
        x >= 0x20 || structural(x),
    ensures
        is_canonical(seq![x]),
{
    assert(canonical_from(seq![x], 1));
}

/// A structural code followed by canonical bytes is canonical.
pub proof fn lemma_canon_led(x: u8, s: Seq<u8>)
    requires
        structural(x),
        is_canonical(s),
    ensures
        is_canonical(seq![x] + s),
{
    lemma_canon_single(x);
    lemma_canon_concat(seq![x], s);
}

proof fn lemma_canon_name_from(s: Seq<u8>, i: int)
    requires
        0 <= i <= s.len(),
        is_name(s),
    ensures
        canonical_from(s, i),
    decreases s.len() - i,
{
    if i < s.len() {
        lemma_canon_name_from(s, i + 1);
    }
}

/// A name (no control byte) is canonical.
pub proof fn lemma_canon_name(s: Seq<u8>)
    requires
        is_name(s),
    ensures
        is_canonical(s),
{
    lemma_canon_name_from(s, 0);
}

/// An escaped value is canonical.
pub proof fn lemma_canon_escape(s: Seq<u8>)
    ensures
        is_canonical(escape(s)),
    decreases s.len(),
{
    if s.len() > 0 {
        lemma_canon_escape(s.drop_last());
        let b = s.last();
        if b < 0x20 {
            let e = seq![DLE, b];
            assert(canonical_from(e, 2));
            assert(escape_byte(b) == e);
        } else {
            lemma_canon_single(b);
            assert(escape_byte(b) == seq![b]);
        }
        lemma_canon_concat(escape(s.drop_last()), escape_byte(b));
    } else {
        assert(canonical_from(escape(s), 0));
    }
}

/// Canonical parts joined with US are canonical.
pub proof fn lemma_canon_joined(parts: Seq<Seq<u8>>)
    requires
        forall|i: int| 0 <= i < parts.len() ==> is_canonical(#[trigger] parts[i]),
    ensures
        is_canonical(joined(parts)),
    decreases parts.len(),
{
    if parts.len() == 0 {
        assert(canonical_from(joined(parts), 0));
    } else if parts.len() > 1 {
        let front = parts.drop_last();
        assert forall|i: int| 0 <= i < front.len() implies is_canonical(#[trigger] front[i]) by {
            assert(front[i] == parts[i]);
        }
        lemma_canon_joined(front);
        lemma_canon_single(US);
        lemma_canon_concat(joined(front), seq![US]);
        lemma_canon_concat(joined(front) + seq![US], parts.last());
    }
}

/// An SOH header of names is canonical.
pub proof fn lemma_canon_header(names: Seq<Seq<u8>>)
    requires
        forall|i: int| 0 <= i < names.len() ==> is_name(#[trigger] names[i]),
    ensures
        is_canonical(header_bytes(names)),
{
    assert forall|i: int| 0 <= i < names.len() implies is_canonical(#[trigger] names[i]) by {
        lemma_canon_name(names[i]);
    }
    lemma_canon_joined(names);
    lemma_canon_led(SOH, joined(names));
}

/// A record of escaped fields is canonical.
pub proof fn lemma_canon_record(fields: Seq<Seq<u8>>)
    ensures
        is_canonical(record_bytes(fields)),
{
    let parts = escaped_all(fields);
    assert forall|i: int| 0 <= i < parts.len() implies is_canonical(#[trigger] parts[i]) by {
        lemma_canon_escape(fields[i]);
    }
    lemma_canon_joined(parts);
    lemma_canon_led(RS, joined(parts));
}

/// A group opening, with its header if any, is canonical.
pub proof fn lemma_canon_group(name: Seq<u8>, headers: Option<Seq<Seq<u8>>>)
    requires
        is_name(name),
        headers matches Some(h) ==> forall|i: int| 0 <= i < h.len() ==> is_name(#[trigger] h[i]),
    ensures
        is_canonical(group_bytes(name, headers)),
{
    lemma_canon_name(name);
    lemma_canon_led(GS, name);
    let tail = match headers {
        Some(h) => header_bytes(h),
        None => Seq::<u8>::empty(),
    };
    match headers {
        Some(h) => lemma_canon_header(h),
        None => assert(canonical_from(tail, 0)),
    }
    lemma_canon_concat(seq![GS] + name, tail);
}

/// A run of GS codes is canonical.
pub proof fn lemma_canon_repeated(k: nat)
    ensures
        is_canonical(repeated(GS, k)),
    decreases k,
{
    if k == 0 {
        assert(canonical_from(repeated(GS, k), 0));
    } else {
        lemma_canon_repeated((k - 1) as nat);
        lemma_canon_single(GS);
        lemma_canon_concat(repeated(GS, (k - 1) as nat), seq![GS]);
        assert(repeated(GS, (k - 1) as nat) + seq![GS] =~= repeated(GS, k));
    }
}

} // verus!
