//! Building C0DATA documents in compact form.

use vstd::prelude::*;
use vstd::string::StringSliceAdditionalSpecFns;

use crate::escaping::{
    escapes_closed, lemma_canon_concat, lemma_canon_escape, lemma_canon_group, lemma_canon_header,
    lemma_canon_led, lemma_canon_name, lemma_canon_record, lemma_canon_repeated, lemma_closed_pair,
    lemma_closed_then_eot,
};
use crate::{is_canonical, DLE, ENQ, EOT, ETB, ETX, FS, GS, RS, SOH, STX, US};

verus! {

broadcast use crate::escaping::lemma_closed_concat, crate::escaping::lemma_closed_push;

/// A name (file/group label, header field, ETB payload) holds no control
/// byte.
pub open spec fn is_name(s: Seq<u8>) -> bool {
    forall|i: int| 0 <= i < s.len() ==> s[i] >= 0x20
}

/// The escaped form of one byte: a control byte gets a DLE in front.
pub open spec fn escape_byte(b: u8) -> Seq<u8> {
    if b < 0x20 {
        seq![DLE, b]
    } else {
        seq![b]
    }
}

/// The escaped form of a value: every control byte gets a DLE in front.
pub open spec fn escape(s: Seq<u8>) -> Seq<u8>
    decreases s.len(),
{
    if s.len() == 0 {
        Seq::empty()
    } else {
        escape(s.drop_last()) + escape_byte(s.last())
    }
}

/// Parts joined with US between them.
pub open spec fn joined(parts: Seq<Seq<u8>>) -> Seq<u8>
    decreases parts.len(),
{
    if parts.len() == 0 {
        Seq::empty()
    } else if parts.len() == 1 {
        parts[0]
    } else {
        joined(parts.drop_last()) + seq![US] + parts.last()
    }
}

/// Each part escaped.
pub open spec fn escaped_all(parts: Seq<Seq<u8>>) -> Seq<Seq<u8>> {
    Seq::new(parts.len(), |i: int| escape(parts[i]))
}

/// The UTF-8 bytes of each string.
pub open spec fn strs_bytes(v: Seq<&str>) -> Seq<Seq<u8>> {
    Seq::new(v.len(), |i: int| v[i].spec_bytes())
}

/// Every string is a name.
pub open spec fn all_names(v: Seq<&str>) -> bool {
    forall|i: int| 0 <= i < v.len() ==> is_name(#[trigger] v[i].spec_bytes())
}

/// The bytes of an SOH header.
pub open spec fn header_bytes(names: Seq<Seq<u8>>) -> Seq<u8> {
    seq![SOH] + joined(names)
}

/// The bytes of a record.
pub open spec fn record_bytes(fields: Seq<Seq<u8>>) -> Seq<u8> {
    seq![RS] + joined(escaped_all(fields))
}

/// The bytes of a group opening, with its header if any.
pub open spec fn group_bytes(name: Seq<u8>, headers: Option<Seq<Seq<u8>>>) -> Seq<u8> {
    seq![GS] + name + match headers {
        Some(h) => header_bytes(h),
        None => Seq::empty(),
    }
}

/// `n` copies of a byte.
pub open spec fn repeated(b: u8, n: nat) -> Seq<u8> {
    Seq::new(n, |i: int| b)
}

pub proof fn lemma_joined_step(parts: Seq<Seq<u8>>, i: int)
    requires
        0 < i < parts.len(),
    ensures
        joined(parts.take(i + 1)) == joined(parts.take(i)) + seq![US] + parts[i],
{
    assert(parts.take(i + 1).drop_last() =~= parts.take(i));
}

pub proof fn lemma_escape_step(s: Seq<u8>, i: int)
    requires
        0 <= i < s.len(),
    ensures
        escape(s.take(i + 1)) == escape(s.take(i)) + escape_byte(s[i]),
{
    assert(s.take(i + 1).drop_last() =~= s.take(i));
}

/// Builds C0DATA documents in compact form.
///
/// Names (file/group labels and SOH header fields) are identifiers: a name
/// may not hold a control byte (`< 0x20`), as canonical form demands.
/// Record/field values are escaped automatically, so what is built never
/// ends inside an escape.
pub struct Builder {
    buf: Vec<u8>,
}

impl Builder {
    /// No escape is left open in what is built.
    #[verifier::type_invariant]
    spec fn inv(&self) -> bool {
        escapes_closed(self.buf@, 0)
    }

    /// The bytes built so far.
    pub closed spec fn view(&self) -> Seq<u8> {
        self.buf@
    }

    pub fn new() -> (r: Self)
        ensures
            r.view() == Seq::<u8>::empty(),
    {
        Builder { buf: Vec::new() }
    }

    // Moves the bytes out, leaving the builder empty.
    fn take(&mut self) -> (r: Vec<u8>)
        ensures
            r@ == old(self).view(),
            escapes_closed(r@, 0),
            final(self).view() == Seq::<u8>::empty(),
    {
        let mut other = Builder::new();
        std::mem::swap(self, &mut other);
        proof {
            use_type_invariant(&other);
        }
        other.buf
    }

    // Puts bytes with no open escape back.
    fn restore(&mut self, buf: Vec<u8>)
        requires
            escapes_closed(buf@, 0),
        ensures
            final(self).view() == buf@,
    {
        *self = Builder { buf };
    }

    /// Build a buffer by driving a fresh builder, returning its bytes: the
    /// result is what `f` leaves in a builder that started empty. When `f`
    /// keeps canonical form (as every method but `eot`, `etb` and
    /// `etb_payload` does), the result is canonical.
    pub fn build<F: FnOnce(&mut Builder)>(f: F) -> (r: Vec<u8>)
        requires
            forall|b: &mut Builder| #[trigger] f.requires((b,)),
        ensures
            exists|b: &mut Builder|
                {
                    &&& f.ensures((b,), ())
                    &&& (*b).view() == Seq::<u8>::empty()
                    &&& r@ == (*final(b)).view()
                },
            (forall|b: &mut Builder|
                #[trigger] f.ensures((b,), ()) && is_canonical((*b).view()) ==> is_canonical(
                    (*final(b)).view(),
                )) ==> is_canonical(r@),
    {
        let mut b = Builder::new();
        let ghost b0 = b;
        f(&mut b);
        proof {
            assert(is_canonical(Seq::<u8>::empty()));
            assert(b0.view() == Seq::<u8>::empty());
        }
        let r = b.into_bytes();
        assert(exists|bb: &mut Builder| f.ensures((bb,), ()) && (*bb).view() == Seq::<u8>::empty()
            && r@ == (*final(bb)).view());
        r
    }

    /// Write a file/database scope (FS + name).
    pub fn file(&mut self, name: &str) -> (r: &mut Self)
        requires
            is_name(name.spec_bytes()),
        ensures
            r.view() == old(self).view() + seq![FS] + name.spec_bytes(),
            is_canonical(old(self).view()) ==> is_canonical(r.view()),
            *final(self) == *final(r),
    {
        let mut buf = self.take();
        let ghost start = buf@;
        buf.push(FS);
        write_name(&mut buf, name);
        proof {
            if is_canonical(start) {
                lemma_canon_name(name.spec_bytes());
                lemma_canon_led(FS, name.spec_bytes());
                lemma_canon_concat(start, seq![FS] + name.spec_bytes());
                assert(buf@ =~= start + (seq![FS] + name.spec_bytes()));
            }
        }
        self.restore(buf);
        self
    }

    /// Write a group/table scope (GS + name) with optional SOH headers.
    pub fn group(&mut self, name: &str, headers: Option<&[&str]>) -> (r: &mut Self)
        requires
            is_name(name.spec_bytes()),
            headers matches Some(h) ==> all_names(h@),
        ensures
            r.view() == old(self).view() + group_bytes(
                name.spec_bytes(),
                match headers {
                    Some(h) => Some(strs_bytes(h@)),
                    None => None,
                },
            ),
            is_canonical(old(self).view()) ==> is_canonical(r.view()),
            *final(self) == *final(r),
    {
        let mut buf = self.take();
        let ghost start = buf@;
        buf.push(GS);
        write_name(&mut buf, name);
        match headers {
            Some(h) => {
                write_header(&mut buf, h);
                assert(buf@ == start + seq![GS] + name.spec_bytes() + header_bytes(strs_bytes(h@)));
            },
            None => {
                assert(buf@ == start + seq![GS] + name.spec_bytes() + Seq::<u8>::empty());
            },
        }
        proof {
            if is_canonical(start) {
                match headers {
                    Some(h) => {
                        assert forall|i: int| 0 <= i < strs_bytes(h@).len() implies is_name(
                            #[trigger] strs_bytes(h@)[i],
                        ) by {
                            assert(is_name(h@[i].spec_bytes()));
                        }
                    },
                    None => {},
                }
                let hs = match headers {
                    Some(h) => Some(strs_bytes(h@)),
                    None => None,
                };
                lemma_canon_group(name.spec_bytes(), hs);
                lemma_canon_concat(start, group_bytes(name.spec_bytes(), hs));
            }
        }
        self.restore(buf);
        self
    }

    /// Write a standalone SOH header (e.g. for stream mode, where the header
    /// is appended and committed separately from the group).
    pub fn header(&mut self, names: &[&str]) -> (r: &mut Self)
        requires
            all_names(names@),
        ensures
            r.view() == old(self).view() + header_bytes(strs_bytes(names@)),
            is_canonical(old(self).view()) ==> is_canonical(r.view()),
            *final(self) == *final(r),
    {
        let mut buf = self.take();
        let ghost start = buf@;
        write_header(&mut buf, names);
        proof {
            if is_canonical(start) {
                assert forall|i: int| 0 <= i < strs_bytes(names@).len() implies is_name(
                    #[trigger] strs_bytes(names@)[i],
                ) by {
                    assert(is_name(names@[i].spec_bytes()));
                }
                lemma_canon_header(strs_bytes(names@));
                lemma_canon_concat(start, header_bytes(strs_bytes(names@)));
            }
        }
        self.restore(buf);
        self
    }

    /// Write a record with positional fields.
    pub fn record(&mut self, fields: &[&str]) -> (r: &mut Self)
        ensures
            r.view() == old(self).view() + record_bytes(strs_bytes(fields@)),
            is_canonical(old(self).view()) ==> is_canonical(r.view()),
            *final(self) == *final(r),
    {
        let mut buf = self.take();
        let ghost start = buf@;
        let ghost parts = escaped_all(strs_bytes(fields@));
        buf.push(RS);
        let n = fields.len();
        for i in 0..n
            invariant
                n == fields@.len(),
                parts == escaped_all(strs_bytes(fields@)),
                buf@ == start + seq![RS] + joined(parts.take(i as int)),
                escapes_closed(buf@, 0),
        {
            if i > 0 {
                buf.push(US);
            }
            write_escaped(&mut buf, fields[i]);
            proof {
                if i > 0 {
                    lemma_joined_step(parts, i as int);
                } else {
                    assert(parts.take(1) =~= seq![parts[0]]);
                }
            }
        }
        proof {
            assert(parts.take(n as int) =~= parts);
        }
        proof {
            if is_canonical(start) {
                lemma_canon_record(strs_bytes(fields@));
                lemma_canon_concat(start, record_bytes(strs_bytes(fields@)));
                assert(buf@ =~= start + record_bytes(strs_bytes(fields@)));
            }
        }
        self.restore(buf);
        self
    }

    /// Write an EOT marker. EOT is framing: since no escape is left open
    /// before it, it stands unescaped, and the result is never a canonical
    /// unit.
    pub fn eot(&mut self) -> (r: &mut Self)
        ensures
            r.view() == old(self).view().push(EOT),
            !is_canonical(r.view()),
            *final(self) == *final(r),
    {
        let mut buf = self.take();
        proof {
            lemma_closed_then_eot(buf@, 0);
        }
        buf.push(EOT);
        self.restore(buf);
        self
    }

    /// Write an ETB commit marker (stream mode).
    pub fn etb(&mut self) -> (r: &mut Self)
        ensures
            r.view() == old(self).view().push(ETB),
            *final(self) == *final(r),
    {
        let mut buf = self.take();
        buf.push(ETB);
        self.restore(buf);
        self
    }

    /// Write an ETB commit marker followed by an integrity payload. The
    /// payload may not contain control bytes: it is terminated by the next
    /// control code on read.
    pub fn etb_payload(&mut self, payload: &str) -> (r: &mut Self)
        requires
            is_name(payload.spec_bytes()),
        ensures
            r.view() == old(self).view() + seq![ETB] + payload.spec_bytes(),
            *final(self) == *final(r),
    {
        let mut buf = self.take();
        buf.push(ETB);
        write_name(&mut buf, payload);
        self.restore(buf);
        self
    }

    /// Write a nested sub-structure (STX, what `f` writes, ETX). Canonical
    /// form carries into `f`'s builder and back out of it.
    pub fn nested<F: FnOnce(&mut Builder)>(&mut self, f: F) -> (r: &mut Self)
        requires
            forall|b: &mut Builder| #[trigger] f.requires((b,)),
        ensures
            exists|b: &mut Builder|
                {
                    &&& f.ensures((b,), ())
                    &&& (*b).view() == old(self).view().push(STX)
                    &&& r.view() == (*final(b)).view().push(ETX)
                    &&& is_canonical(old(self).view()) ==> is_canonical((*b).view())
                    &&& is_canonical((*final(b)).view()) ==> is_canonical(r.view())
                },
            *final(self) == *final(r),
    {
        let mut buf = self.take();
        let ghost start = buf@;
        buf.push(STX);
        proof {
            if is_canonical(start) {
                lemma_canon_led(STX, Seq::<u8>::empty());
                lemma_canon_concat(start, seq![STX] + Seq::<u8>::empty());
                assert(buf@ =~= start + (seq![STX] + Seq::<u8>::empty()));
            }
        }
        let mut inner = Builder { buf };
        let ghost opened = inner.view();
        f(&mut inner);
        let mut buf = inner.take();
        let ghost closed = buf@;
        buf.push(ETX);
        proof {
            if is_canonical(closed) {
                lemma_canon_led(ETX, Seq::<u8>::empty());
                lemma_canon_concat(closed, seq![ETX] + Seq::<u8>::empty());
                assert(buf@ =~= closed + (seq![ETX] + Seq::<u8>::empty()));
            }
        }
        self.restore(buf);
        assert(exists|b: &mut Builder|
            f.ensures((b,), ()) && (*b).view() == opened && (*final(b)).view() == closed);
        self
    }

    /// Write a reference to a named group (ENQ + name).
    pub fn reference(&mut self, name: &str) -> (r: &mut Self)
        requires
            is_name(name.spec_bytes()),
        ensures
            r.view() == old(self).view() + seq![ENQ] + name.spec_bytes(),
            is_canonical(old(self).view()) ==> is_canonical(r.view()),
            *final(self) == *final(r),
    {
        let mut buf = self.take();
        let ghost start = buf@;
        buf.push(ENQ);
        write_name(&mut buf, name);
        proof {
            if is_canonical(start) {
                lemma_canon_name(name.spec_bytes());
                lemma_canon_led(ENQ, name.spec_bytes());
                lemma_canon_concat(start, seq![ENQ] + name.spec_bytes());
                assert(buf@ =~= start + (seq![ENQ] + name.spec_bytes()));
            }
        }
        self.restore(buf);
        self
    }

    /// Write a single US-prefixed field value (escaped).
    pub fn field(&mut self, value: &str) -> (r: &mut Self)
        ensures
            r.view() == old(self).view() + seq![US] + escape(value.spec_bytes()),
            is_canonical(old(self).view()) ==> is_canonical(r.view()),
            *final(self) == *final(r),
    {
        let mut buf = self.take();
        let ghost start = buf@;
        buf.push(US);
        write_escaped(&mut buf, value);
        proof {
            if is_canonical(start) {
                lemma_canon_escape(value.spec_bytes());
                lemma_canon_led(US, escape(value.spec_bytes()));
                lemma_canon_concat(start, seq![US] + escape(value.spec_bytes()));
                assert(buf@ =~= start + (seq![US] + escape(value.spec_bytes())));
            }
        }
        self.restore(buf);
        self
    }

    /// Write GS `depth` times for document-mode depth, then the section name.
    pub fn section(&mut self, name: &str, depth: usize) -> (r: &mut Self)
        requires
            is_name(name.spec_bytes()),
        ensures
            r.view() == old(self).view() + repeated(GS, depth as nat) + name.spec_bytes(),
            is_canonical(old(self).view()) ==> is_canonical(r.view()),
            *final(self) == *final(r),
    {
        let mut buf = self.take();
        let ghost start = buf@;
        for i in 0..depth
            invariant
                buf@ == start + repeated(GS, i as nat),
                escapes_closed(buf@, 0),
        {
            buf.push(GS);
            assert(start + repeated(GS, (i + 1) as nat) =~= start + repeated(GS, i as nat) + seq![GS]);
        }
        write_name(&mut buf, name);
        proof {
            if is_canonical(start) {
                lemma_canon_repeated(depth as nat);
                lemma_canon_name(name.spec_bytes());
                lemma_canon_concat(repeated(GS, depth as nat), name.spec_bytes());
                lemma_canon_concat(start, repeated(GS, depth as nat) + name.spec_bytes());
                assert(buf@ =~= start + (repeated(GS, depth as nat) + name.spec_bytes()));
            }
        }
        self.restore(buf);
        self
    }

    /// Write a content block (RS + escaped text) for document mode.
    pub fn block(&mut self, text: &str) -> (r: &mut Self)
        ensures
            r.view() == old(self).view() + seq![RS] + escape(text.spec_bytes()),
            is_canonical(old(self).view()) ==> is_canonical(r.view()),
            *final(self) == *final(r),
    {
        let mut buf = self.take();
        let ghost start = buf@;
        buf.push(RS);
        write_escaped(&mut buf, text);
        proof {
            if is_canonical(start) {
                lemma_canon_escape(text.spec_bytes());
                lemma_canon_led(RS, escape(text.spec_bytes()));
                lemma_canon_concat(start, seq![RS] + escape(text.spec_bytes()));
                assert(buf@ =~= start + (seq![RS] + escape(text.spec_bytes())));
            }
        }
        self.restore(buf);
        self
    }

    /// Write a list item (US + escaped text) for document mode.
    pub fn item(&mut self, text: &str) -> (r: &mut Self)
        ensures
            r.view() == old(self).view() + seq![US] + escape(text.spec_bytes()),
            is_canonical(old(self).view()) ==> is_canonical(r.view()),
            *final(self) == *final(r),
    {
        let mut buf = self.take();
        let ghost start = buf@;
        buf.push(US);
        write_escaped(&mut buf, text);
        proof {
            if is_canonical(start) {
                lemma_canon_escape(text.spec_bytes());
                lemma_canon_led(US, escape(text.spec_bytes()));
                lemma_canon_concat(start, seq![US] + escape(text.spec_bytes()));
                assert(buf@ =~= start + (seq![US] + escape(text.spec_bytes())));
            }
        }
        self.restore(buf);
        self
    }

    /// The bytes built so far.
    pub fn as_bytes(&self) -> (r: &[u8])
        ensures
            r@ == self.view(),
    {
        self.buf.as_slice()
    }

    /// Consume the builder, returning the built buffer.
    pub fn into_bytes(self) -> (r: Vec<u8>)
        ensures
            r@ == self.view(),
    {
        self.buf
    }
}

// The SOH header: SOH, then the names joined with US.
fn write_header(buf: &mut Vec<u8>, names: &[&str])
    requires
        all_names(names@),
        escapes_closed(old(buf)@, 0),
    ensures
        final(buf)@ == old(buf)@ + header_bytes(strs_bytes(names@)),
        escapes_closed(final(buf)@, 0),
{
    let ghost start = buf@;
    let ghost parts = strs_bytes(names@);
    buf.push(SOH);
    let n = names.len();
    for i in 0..n
        invariant
            n == names@.len(),
            all_names(names@),
            parts == strs_bytes(names@),
            buf@ == start + seq![SOH] + joined(parts.take(i as int)),
            escapes_closed(buf@, 0),
    {
        if i > 0 {
            buf.push(US);
        }
        write_name(buf, names[i]);
        proof {
            if i > 0 {
                lemma_joined_step(parts, i as int);
            } else {
                assert(parts.take(1) =~= seq![parts[0]]);
            }
        }
    }
    proof {
        assert(parts.take(n as int) =~= parts);
    }
}

// Writes a value, DLE-escaping any control bytes.
fn write_escaped(buf: &mut Vec<u8>, s: &str)
    requires
        escapes_closed(old(buf)@, 0),
    ensures
        final(buf)@ == old(buf)@ + escape(s.spec_bytes()),
        escapes_closed(final(buf)@, 0),
{
    let bytes = s.as_bytes();
    let ghost start = buf@;
    let n = bytes.len();
    for i in 0..n
        invariant
            n == bytes@.len(),
            bytes@ == s.spec_bytes(),
            buf@ == start + escape(bytes@.take(i as int)),
            escapes_closed(buf@, 0),
    {
        let byte = bytes[i];
        if byte < 0x20 {
            proof {
                lemma_closed_pair(buf@, byte);
            }
            buf.push(DLE);
        }
        buf.push(byte);
        proof {
            lemma_escape_step(bytes@, i as int);
        }
    }
    proof {
        assert(bytes@.take(n as int) =~= bytes@);
    }
}

// Writes a name (label or header): names are identifiers without control
// bytes.
fn write_name(buf: &mut Vec<u8>, s: &str)
    requires
        is_name(s.spec_bytes()),
        escapes_closed(old(buf)@, 0),
    ensures
        final(buf)@ == old(buf)@ + s.spec_bytes(),
        escapes_closed(final(buf)@, 0),
{
    let bytes = s.as_bytes();
    let ghost start = buf@;
    let n = bytes.len();
    for i in 0..n
        invariant
            n == bytes@.len(),
            bytes@ == s.spec_bytes(),
            is_name(s.spec_bytes()),
            buf@ == start + bytes@.take(i as int),
            escapes_closed(buf@, 0),
    {
        assert(bytes@[i as int] >= 0x20);
        buf.push(bytes[i]);
        assert(bytes@.take(i + 1) =~= bytes@.take(i as int).push(bytes@[i as int]));
    }
    proof {
        assert(bytes@.take(n as int) =~= bytes@);
    }
}

impl Default for Builder {
    fn default() -> (r: Self)
        ensures
            r.view() == Seq::<u8>::empty(),
    {
        Builder::new()
    }
}

} // verus!
