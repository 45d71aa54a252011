//! Well-formed UTF-8 survives the byte maps of escaping and of the pretty
//! layout: both touch only bytes below 0x20, which stand for themselves.

use vstd::prelude::*;
use vstd::utf8::{
    encode_scalar, encode_utf8, encode_utf8_valid_utf8, length_of_first_scalar, pop_first_scalar,
    take_first_scalar, valid_first_scalar, valid_utf8,
};

use crate::builder::{escape, escape_byte, joined};
use crate::pretty::{glyph_bytes, glyph_of, shown};
use crate::pretty_roundtrip::{lemma_escape_name, lemma_shown_all_concat, lemma_shown_all_data, shown_all};
use crate::{DLE, US};

verus! {

/// Well-formed text followed by well-formed text is well-formed.
pub proof fn lemma_utf8_concat(a: Seq<u8>, b: Seq<u8>)
    requires
        valid_utf8(a),
        valid_utf8(b),
    ensures
        valid_utf8(a + b),
    decreases a.len(),
{
    if a.len() == 0 {
        assert(a + b =~= b);
    } else {
        let n = length_of_first_scalar(a);
        assert forall|k: int| 0 <= k < a.len() implies (a + b)[k] == a[k] by {}
        assert(valid_first_scalar(a + b));
        assert(length_of_first_scalar(a + b) == n);
        assert(pop_first_scalar(a + b) =~= pop_first_scalar(a) + b);
        lemma_utf8_concat(pop_first_scalar(a), b);
    }
}

/// ASCII text is well-formed.
pub proof fn lemma_ascii_valid(s: Seq<u8>)
    requires
        forall|k: int| 0 <= k < s.len() ==> #[trigger] s[k] < 0x80,
    ensures
        valid_utf8(s),
    decreases s.len(),
{
    if s.len() > 0 {
        let b = s[0];
        assert(b < 0x80);
        assert((b & 0x7F) == b) by (bit_vector)
            requires
                b < 0x80,
        ;
        assert(valid_first_scalar(s));
        assert(pop_first_scalar(s) =~= s.drop_first());
        lemma_ascii_valid(s.drop_first());
    }
}

/// The picture of a control byte is well-formed.
pub proof fn lemma_glyph_valid(c: u8)
    requires
        c < 0x20,
    ensures
        valid_utf8(glyph_bytes(c)),
{
    let ch = glyph_of(c);
    assert((ch as u32) == (0x2400 + c) as u32);
    assert(seq![ch].drop_first() =~= Seq::<char>::empty());
    assert(seq![ch][0] == ch);
    assert(encode_utf8(Seq::<char>::empty()) == Seq::<u8>::empty());
    assert(encode_utf8(seq![ch]) == encode_scalar(ch as u32) + encode_utf8(Seq::<char>::empty()));
    assert(encode_utf8(seq![ch]) =~= glyph_bytes(c));
    encode_utf8_valid_utf8(seq![ch]);
}

/// The first scalar of well-formed text, alone, is well-formed; when it is
/// more than one byte, none of its bytes is below 0x80.
proof fn lemma_first_scalar(x: Seq<u8>)
    requires
        valid_utf8(x),
        x.len() > 0,
    ensures
        valid_utf8(take_first_scalar(x)),
        x =~= take_first_scalar(x) + pop_first_scalar(x),
        take_first_scalar(x).len() > 0,
        valid_utf8(pop_first_scalar(x)),
        take_first_scalar(x).len() == 1 ==> take_first_scalar(x) == seq![x[0]] && x[0] < 0x80,
        take_first_scalar(x).len() > 1 ==> forall|k: int|
            0 <= k < take_first_scalar(x).len() ==> #[trigger] take_first_scalar(x)[k] >= 0x80,
{
    let t = take_first_scalar(x);
    let n = length_of_first_scalar(x);
    assert forall|k: int| 0 <= k < t.len() implies t[k] == x[k] by {}
    assert(valid_first_scalar(t));
    assert(length_of_first_scalar(t) == n);
    assert(pop_first_scalar(t) =~= Seq::<u8>::empty());
    assert(valid_utf8(pop_first_scalar(t)));
    if n == 1 {
        assert(t =~= seq![x[0]]);
    }
}

proof fn lemma_escape_concat(a: Seq<u8>, b: Seq<u8>)
    ensures
        escape(a + b) == escape(a) + escape(b),
    decreases b.len(),
{
    if b.len() == 0 {
        assert(a + b =~= a);
        assert(escape(a) + escape(b) =~= escape(a));
    } else {
        assert((a + b).drop_last() =~= a + b.drop_last());
        lemma_escape_concat(a, b.drop_last());
        assert(escape(a) + escape(b) =~= escape(a) + escape(b.drop_last()) + escape_byte(b.last()));
    }
}

/// Escaping keeps text well-formed.
pub proof fn lemma_escape_valid(x: Seq<u8>)
    requires
        valid_utf8(x),
    ensures
        valid_utf8(escape(x)),
    decreases x.len(),
{
    if x.len() > 0 {
        lemma_first_scalar(x);
        let t = take_first_scalar(x);
        let rest = pop_first_scalar(x);
        lemma_escape_concat(t, rest);
        lemma_escape_valid(rest);
        if t.len() == 1 {
            let b = x[0];
            assert(t.drop_last() =~= Seq::<u8>::empty());
            assert(t.last() == b);
            assert(escape(Seq::<u8>::empty()) == Seq::<u8>::empty());
            assert(escape(t) =~= escape_byte(b));
            if b < 0x20 {
                assert(escape_byte(b) =~= seq![DLE, b]);
            }
            lemma_ascii_valid(escape_byte(b));
        } else {
            lemma_escape_name(t);
        }
        lemma_utf8_concat(escape(t), escape(rest));
    }
}

/// The pretty form of each byte keeps text well-formed.
pub proof fn lemma_shown_all_valid(x: Seq<u8>)
    requires
        valid_utf8(x),
    ensures
        valid_utf8(shown_all(x)),
    decreases x.len(),
{
    if x.len() > 0 {
        lemma_first_scalar(x);
        let t = take_first_scalar(x);
        let rest = pop_first_scalar(x);
        lemma_shown_all_concat(t, rest);
        lemma_shown_all_valid(rest);
        if t.len() == 1 {
            let b = x[0];
            assert(t.drop_first() =~= Seq::<u8>::empty());
            assert(t[0] == b);
            assert(shown_all(Seq::<u8>::empty()) == Seq::<u8>::empty());
            assert(shown_all(t) =~= shown(b));
            if b < 0x20 {
                lemma_glyph_valid(b);
            } else {
                lemma_ascii_valid(seq![b]);
            }
        } else {
            lemma_shown_all_data(t);
        }
        lemma_utf8_concat(shown_all(t), shown_all(rest));
    }
}

/// Well-formed parts joined with US are well-formed.
pub proof fn lemma_joined_valid(parts: Seq<Seq<u8>>)
    requires
        forall|i: int| 0 <= i < parts.len() ==> valid_utf8(#[trigger] parts[i]),
    ensures
        valid_utf8(joined(parts)),
    decreases parts.len(),
{
    if parts.len() == 0 {
        assert(valid_utf8(joined(parts)));
    } else if parts.len() > 1 {
        let front = parts.drop_last();
        assert forall|i: int| 0 <= i < front.len() implies valid_utf8(#[trigger] front[i]) by {
            assert(front[i] == parts[i]);
        }
        lemma_joined_valid(front);
        lemma_ascii_valid(seq![US]);
        lemma_utf8_concat(joined(front), seq![US]);
        lemma_utf8_concat(joined(front) + seq![US], parts.last());
    } else {
        assert(valid_utf8(parts[0]));
    }
}

} // verus!
