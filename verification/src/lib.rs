//! C0DATA: structured data built on ASCII C0 control codes.
//!
//! Values are plain UTF-8 text; structure is expressed through single-byte
//! control codes (FS/GS/RS/US separators, SOH headers, STX/ETX nesting, DLE
//! escape, ETB stream commits). Readers index a borrowed buffer and hand out
//! slices of it; every scanner here is specified over `Seq<u8>` and proved
//! against that specification.

use vstd::prelude::*;

use std::borrow::Cow;
use vstd::string::StringExecFns;

use crate::text::{decimal, hex2, push_decimal, push_hex2};

mod builder;
pub mod csv;
pub mod diff;
mod document;
mod escaping;
pub mod layout;
pub mod layout_roundtrip;
pub mod pretty;
pub mod json;
pub mod properties;
pub mod pretty_roundtrip;
mod scan;
pub mod sink;
mod text;
mod token;
mod stream;
mod table;
mod tokenizer;
mod well_formed;

pub use builder::Builder;
pub use document::{Document, DocumentView, Group};
pub use layout::{format_mode, FormatMode};
pub use pretty::{format_with, glyph, parse};
pub use stream::{commit_bytes, group_block, header_block, record_block, StreamReader, StreamWriter};
pub use table::{Record, Table, TableView};
pub use token::{Token, TokenType};
pub use tokenizer::{tokenize, Tokenizer};

verus! {

/// The crate version.
pub const VERSION: &'static str = "0.1.0";

/// Header (field name declarations).
pub const SOH: u8 = 0x01;
/// Open nested sub-structure / reference scope.
pub const STX: u8 = 0x02;
/// Close nested sub-structure / reference scope.
pub const ETX: u8 = 0x03;
/// End of document / message.
pub const EOT: u8 = 0x04;
/// Reference (enquiry: look up named data).
pub const ENQ: u8 = 0x05;
/// Escape (next byte is literal).
pub const DLE: u8 = 0x10;
/// Commit marker (stream mode block terminator).
pub const ETB: u8 = 0x17;
/// Substitution (old to new, C0DIFF).
pub const SUB: u8 = 0x1a;
/// File / database separator.
pub const FS: u8 = 0x1c;
/// Group / table / section separator.
pub const GS: u8 = 0x1d;
/// Record / row separator.
pub const RS: u8 = 0x1e;
/// Unit / field separator.
pub const US: u8 = 0x1f;

/// The assigned C0 control codes.
pub open spec fn assigned_code(byte: u8) -> bool {
    byte == SOH || byte == STX || byte == ETX || byte == EOT || byte == ENQ || byte == DLE
        || byte == ETB || byte == SUB || byte == FS || byte == GS || byte == RS || byte == US
}

/// Whether a byte is an assigned C0 control code.
pub fn is_assigned(byte: u8) -> (r: bool)
    ensures
        r == assigned_code(byte),
{
    byte == SOH || byte == STX || byte == ETX || byte == EOT || byte == ENQ || byte == DLE
        || byte == ETB || byte == SUB || byte == FS || byte == GS || byte == RS || byte == US
}

/// Errors raised while tokenizing or decoding C0DATA.
#[derive(Debug, Clone, PartialEq, Eq)]
pub enum Error {
    /// A control byte (< 0x20) that is not one of the assigned codes.
    UnassignedCode { byte: u8, position: usize },
    /// Input ended immediately after a DLE escape, with nothing to escape.
    UnexpectedEnd,
}

/// The text of an error.
pub open spec fn error_text(e: Error) -> Seq<char> {
    match e {
        Error::UnassignedCode { byte, position } => "Unassigned control code 0x"@ + hex2(byte)
            + " at position "@ + decimal(position as nat),
        Error::UnexpectedEnd => "Unexpected end of input after DLE escape"@,
    }
}

impl Error {
    /// The error as a sentence, e.g. `Unassigned control code 0x0e at
    /// position 3`.
    pub fn message(&self) -> (r: String)
        ensures
            r@ == error_text(*self),
    {
        match self {
            Error::UnassignedCode { byte, position } => {
                let mut out = String::new();
                out.append("Unassigned control code 0x");
                push_hex2(&mut out, *byte);
                out.append(" at position ");
                push_decimal(&mut out, *position);
                out
            },
            Error::UnexpectedEnd => {
                let mut out = String::new();
                out.append("Unexpected end of input after DLE escape");
                out
            },
        }
    }
}

/// The logical bytes of `s[i..]`: each DLE is dropped and the byte after it
/// kept literally; a DLE with nothing after it is dropped.
pub open spec fn unescape_from(s: Seq<u8>, i: int) -> Seq<u8>
    decreases s.len() - i,
{
    if i < 0 || i >= s.len() {
        Seq::empty()
    } else if s[i] == DLE {
        if i + 1 >= s.len() {
            Seq::empty()
        } else {
            seq![s[i + 1]] + unescape_from(s, i + 2)
        }
    } else {
        seq![s[i]] + unescape_from(s, i + 1)
    }
}

/// The logical bytes of an escaped value.
pub open spec fn unescaped(s: Seq<u8>) -> Seq<u8> {
    unescape_from(s, 0)
}

/// The bytes held by a copy-on-write byte buffer.
pub open spec fn cow_bytes(c: Cow<'_, [u8]>) -> Seq<u8> {
    match c {
        Cow::Borrowed(b) => b@,
        Cow::Owned(v) => v@,
    }
}

/// With no DLE in `s[i..]`, the logical bytes are the bytes themselves.
proof fn lemma_unescape_no_dle(s: Seq<u8>, i: int)
    requires
        0 <= i <= s.len(),
        forall|k: int| i <= k < s.len() ==> s[k] != DLE,
    ensures
        unescape_from(s, i) == s.subrange(i, s.len() as int),
    decreases s.len() - i,
{
    if i < s.len() {
        lemma_unescape_no_dle(s, i + 1);
        assert(s.subrange(i, s.len() as int) == seq![s[i]] + s.subrange(i + 1, s.len() as int));
    } else {
        assert(s.subrange(i, s.len() as int) =~= Seq::<u8>::empty());
    }
}

/// Decode DLE escapes, returning the logical bytes of a value.
///
/// Returns a borrowed slice when no escapes are present, and an owned buffer
/// only when at least one DLE must be removed. A trailing DLE with nothing to
/// escape (only possible on a malformed slice) is dropped.
pub fn unescape(buf: &[u8]) -> (r: Cow<'_, [u8]>)
    ensures
        cow_bytes(r) == unescaped(buf@),
        (r is Borrowed) <==> !buf@.contains(DLE),
{
    let len = buf.len();
    let mut first: usize = 0;
    while first < len && buf[first] != DLE
        invariant
            first <= len == buf@.len(),
            forall|k: int| 0 <= k < first ==> buf@[k] != DLE,
        decreases len - first,
    {
        first = first + 1;
    }
    if first == len {
        proof {
            lemma_unescape_no_dle(buf@, 0);
            assert(buf@.subrange(0, len as int) == buf@);
        }
        return Cow::Borrowed(buf);
    }
    let mut out: Vec<u8> = Vec::new();
    let mut k: usize = 0;
    while k < first
        invariant
            k <= first < len == buf@.len(),
            forall|j: int| 0 <= j < first ==> buf@[j] != DLE,
            out@ == buf@.subrange(0, k as int),
            unescape_from(buf@, 0) == out@ + unescape_from(buf@, k as int),
        decreases first - k,
    {
        out.push(buf[k]);
        k = k + 1;
        assert(out@ == buf@.subrange(0, k as int));
    }
    let mut i: usize = first;
    while i < len
        invariant
            i <= len == buf@.len(),
            unescape_from(buf@, 0) == out@ + unescape_from(buf@, i as int),
        decreases len - i,
    {
        if buf[i] == DLE {
            if len - i < 2 {
                i = len;
            } else {
                out.push(buf[i + 1]);
                i = i + 2;
            }
        } else {
            out.push(buf[i]);
            i = i + 1;
        }
    }
    assert(buf@.contains(DLE)) by {
        assert(buf@[first as int] == DLE);
    }
    Cow::Owned(out)
}

/// Canonical form of `s[i..]`: every DLE
/// escapes a following control byte, no ETB or EOT framing byte occurs
/// unescaped, and every unescaped control byte is an assigned code.
pub open spec fn canonical_from(s: Seq<u8>, i: int) -> bool
    decreases s.len() - i,
{
    if i < 0 || i >= s.len() {
        true
    } else if s[i] == DLE {
        i + 1 < s.len() && s[i + 1] < 0x20 && canonical_from(s, i + 2)
    } else if s[i] == ETB || s[i] == EOT {
        false
    } else if s[i] < 0x20 && !assigned_code(s[i]) {
        false
    } else {
        canonical_from(s, i + 1)
    }
}

/// Whether a whole buffer is a canonical document unit.
pub open spec fn is_canonical(s: Seq<u8>) -> bool {
    canonical_from(s, 0)
}

/// Whether bytes are a canonical document unit for content addressing:
/// well-formed, minimally escaped
/// (DLE appears only before bytes < 0x20), and free of framing bytes
/// (ETB, EOT). Stream logs validate per-block, not with this check.
pub fn canonical(buf: &[u8]) -> (r: bool)
    ensures
        r == is_canonical(buf@),
{
    let len = buf.len();
    let mut i: usize = 0;
    while i < len
        invariant
            i <= len == buf@.len(),
            is_canonical(buf@) == canonical_from(buf@, i as int),
        decreases len - i,
    {
        let byte = buf[i];
        if byte == DLE {
            if len - i < 2 {
                return false;
            }
            if buf[i + 1] >= 0x20 {
                return false;
            }
            i = i + 2;
        } else if byte == ETB || byte == EOT {
            return false;
        } else if byte < 0x20 {
            if !is_assigned(byte) {
                return false;
            }
            i = i + 1;
        } else {
            i = i + 1;
        }
    }
    true
}

} // verus!
