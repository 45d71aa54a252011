use vstd::prelude::*;

use crate::scan::lemma_data_run;
use crate::token::{control_kind, Token, TokenType};
use crate::{canonical_from, is_canonical, Error, DLE};

verus! {

/// End of the run of data bytes (`>= 0x20`) that starts at `i`.
pub open spec fn data_run_end(s: Seq<u8>, i: int) -> int
    decreases s.len() - i,
{
    if i < 0 || i >= s.len() || s[i] < 0x20 {
        i
    } else {
        data_run_end(s, i + 1)
    }
}

/// The token (or error) found at `pos`, and the position after it. After an
/// error the position is the end of the input: scanning stops there.
pub open spec fn token_step(s: Seq<u8>, pos: int) -> (Result<Token, Error>, int) {
    let byte = s[pos];
    if byte < 0x20 {
        if byte == DLE {
            if pos + 1 >= s.len() {
                (Err(Error::UnexpectedEnd), s.len() as int)
            } else {
                (
                    Ok(Token { kind: TokenType::Data, start: (pos + 1) as usize, end: (pos + 2) as usize }),
                    pos + 2,
                )
            }
        } else {
            match control_kind(byte) {
                Some(kind) => (
                    Ok(Token { kind, start: pos as usize, end: (pos + 1) as usize }),
                    pos + 1,
                ),
                None => (
                    Err(Error::UnassignedCode { byte, position: pos as usize }),
                    s.len() as int,
                ),
            }
        }
    } else {
        let end = data_run_end(s, pos + 1);
        (Ok(Token { kind: TokenType::Data, start: pos as usize, end: end as usize }), end)
    }
}

proof fn lemma_token_step(s: Seq<u8>, pos: int)
    requires
        0 <= pos < s.len(),
    ensures
        pos < token_step(s, pos).1 <= s.len(),
{
    lemma_data_run(s, pos + 1);
}

/// All tokens of `s[pos..]`, or the first error met.
pub open spec fn tokens_from(s: Seq<u8>, pos: int) -> Result<Seq<Token>, Error>
    decreases s.len() - pos,
{
    if pos < 0 || pos >= s.len() {
        Ok(Seq::empty())
    } else {
        let (res, next) = token_step(s, pos);
        match res {
            Err(e) => Err(e),
            Ok(t) => if next <= pos || next > s.len() {
                Ok(Seq::empty())
            } else {
                match tokens_from(s, next) {
                    Ok(ts) => Ok(seq![t] + ts),
                    Err(e) => Err(e),
                }
            },
        }
    }
}

/// The tokens of a whole buffer, or the first error met.
pub open spec fn tokens_of(s: Seq<u8>) -> Result<Seq<Token>, Error> {
    tokens_from(s, 0)
}

/// A buffer is well-formed when it tokenizes without error: every control
/// byte is assigned and no DLE ends the input.
pub open spec fn well_formed(s: Seq<u8>) -> bool {
    tokens_of(s) is Ok
}

/// `done` tokens followed by what `rest` yields.
pub open spec fn prepend(done: Seq<Token>, rest: Result<Seq<Token>, Error>) -> Result<
    Seq<Token>,
    Error,
> {
    match rest {
        Ok(ts) => Ok(done + ts),
        Err(e) => Err(e),
    }
}

/// Tokenizer for C0DATA.
///
/// Scans a byte buffer for control codes (`< 0x20`) and yields tokens as
/// offsets into the original buffer. An error (unassigned code or dangling
/// DLE) is yielded once, after which the tokenizer yields nothing.
pub struct Tokenizer<'a> {
    buf: &'a [u8],
    pos: usize,
    done: bool,
}

impl<'a> Tokenizer<'a> {
    #[verifier::type_invariant]
    spec fn inv(&self) -> bool {
        self.pos <= self.buf@.len()
    }

    /// The buffer being scanned.
    pub closed spec fn input(&self) -> Seq<u8> {
        self.buf@
    }

    /// The offset of the next unread byte.
    pub closed spec fn position(&self) -> int {
        self.pos as int
    }

    /// Whether the tokenizer yields nothing more.
    pub closed spec fn finished(&self) -> bool {
        self.done || self.pos >= self.buf@.len()
    }

    pub fn new(buf: &'a [u8]) -> (r: Self)
        ensures
            r.input() == buf@,
            r.position() == 0,
            r.finished() == (buf@.len() == 0),
    {
        Tokenizer { buf, pos: 0, done: false }
    }

    /// The next token, or the error that ends the scan, or `None` once
    /// the input is exhausted or an error was reported.
    pub fn next(&mut self) -> (r: Option<Result<Token, Error>>)
        ensures
            final(self).input() == old(self).input(),
            old(self).finished() ==> r is None && final(self).finished()
                && final(self).position() == old(self).position(),
            !old(self).finished() ==> {
                let (res, next) = token_step(old(self).input(), old(self).position());
                &&& r == Some(res)
                &&& final(self).position() == next
                &&& final(self).finished() == (res is Err || next >= old(self).input().len())
            },
    {
        proof {
            use_type_invariant(&*self);
        }
        if self.done || self.pos >= self.buf.len() {
            return None;
        }
        proof {
            lemma_data_run(self.buf@, self.pos + 1);
        }
        let byte = self.buf[self.pos];
        if byte < 0x20 {
            if byte == DLE {
                if self.buf.len() - self.pos < 2 {
                    self.pos = self.buf.len();
                    self.done = true;
                    return Some(Err(Error::UnexpectedEnd));
                }
                let tok = Token { kind: TokenType::Data, start: self.pos + 1, end: self.pos + 2 };
                self.pos = self.pos + 2;
                Some(Ok(tok))
            } else {
                match TokenType::control(byte) {
                    Some(kind) => {
                        let tok = Token { kind, start: self.pos, end: self.pos + 1 };
                        self.pos = self.pos + 1;
                        Some(Ok(tok))
                    },
                    None => {
                        let position = self.pos;
                        self.pos = self.buf.len();
                        self.done = true;
                        Some(Err(Error::UnassignedCode { byte, position }))
                    },
                }
            }
        } else {
            let start = self.pos;
            let mut p = self.pos + 1;
            while p < self.buf.len() && self.buf[p] >= 0x20
                invariant
                    start < p <= self.buf@.len(),
                    data_run_end(self.buf@, p as int) == data_run_end(self.buf@, start + 1),
                decreases self.buf@.len() - p,
            {
                p = p + 1;
            }
            self.pos = p;
            Some(Ok(Token { kind: TokenType::Data, start, end: p }))
        }
    }
}

/// Collect all tokens, returning the first error if the buffer is malformed.
pub fn tokenize(buf: &[u8]) -> (r: Result<Vec<Token>, Error>)
    ensures
        match r {
            Ok(v) => tokens_of(buf@) == Ok::<Seq<Token>, Error>(v@),
            Err(e) => tokens_of(buf@) == Err::<Seq<Token>, Error>(e),
        },
{
    let mut t = Tokenizer::new(buf);
    let mut out: Vec<Token> = Vec::new();
    loop
        invariant
            t.input() == buf@,
            0 <= t.position() <= buf@.len(),
            !t.finished() ==> tokens_of(buf@) == prepend(out@, tokens_from(buf@, t.position())),
            t.finished() ==> tokens_of(buf@) == Ok::<Seq<Token>, Error>(out@),
        decreases buf@.len() - t.position(),
    {
        let ghost before = t.position();
        match t.next() {
            None => {
                return Ok(out);
            },
            Some(Err(e)) => {
                return Err(e);
            },
            Some(Ok(tok)) => {
                proof {
                    lemma_token_step(buf@, before);
                    let (res, nx) = token_step(buf@, before);
                    assert(out@.push(tok) == out@ + seq![tok]);
                    match tokens_from(buf@, nx) {
                        Ok(ts) => {
                            assert(out@ + (seq![tok] + ts) == out@.push(tok) + ts);
                        },
                        Err(_) => {},
                    }
                    if nx >= buf@.len() {
                        assert(tokens_from(buf@, nx) == Ok::<Seq<Token>, Error>(Seq::empty()));
                        assert(out@.push(tok) + Seq::<Token>::empty() == out@.push(tok));
                    }
                }
                out.push(tok);
            },
        }
    }
}

proof fn lemma_canonical_skip_data(s: Seq<u8>, i: int, j: int)
    requires
        0 <= i <= j <= s.len(),
        forall|k: int| i <= k < j ==> s[k] >= 0x20,
        canonical_from(s, i),
    ensures
        canonical_from(s, j),
    decreases j - i,
{
    if i < j {
        lemma_canonical_skip_data(s, i + 1, j);
    }
}

proof fn lemma_canonical_tokenizes(s: Seq<u8>, i: int)
    requires
        0 <= i,
        canonical_from(s, i),
    ensures
        tokens_from(s, i) is Ok,
    decreases s.len() - i,
{
    if i < s.len() {
        lemma_token_step(s, i);
        let next = token_step(s, i).1;
        if s[i] >= 0x20 {
            lemma_data_run(s, i + 1);
            lemma_canonical_skip_data(s, i, next);
        }
        lemma_canonical_tokenizes(s, next);
    }
}

/// Canonical bytes are well-formed: a buffer that passes the canonical-form
/// check always tokenizes without error.
pub proof fn canonical_is_well_formed(s: Seq<u8>)
    requires
        is_canonical(s),
    ensures
        well_formed(s),
{
    lemma_canonical_tokenizes(s, 0);
}


/// A token of `s` has its shape: a non-empty span inside `s`; a control
/// token is one assigned control byte; a data token is a run of bytes of
/// text, or the one byte after a DLE; no token is a DLE.
pub open spec fn token_shaped(s: Seq<u8>, t: Token) -> bool {
    &&& t.start < t.end <= s.len()
    &&& t.kind != TokenType::Dle
    &&& t.kind != TokenType::Data ==> t.end == t.start + 1 && control_kind(s[t.start as int]) == Some(t.kind)
    &&& t.kind == TokenType::Data ==> (forall|k: int| t.start <= k < t.end ==> #[trigger] s[k] >= 0x20)
        || (t.end == t.start + 1 && t.start >= 1 && s[t.start - 1] == DLE)
}

proof fn lemma_control_not_dle(b: u8)
    ensures
        control_kind(b) != Some(TokenType::Dle),
{
}

proof fn lemma_tokens_shaped(s: Seq<u8>, pos: int)
    requires
        0 <= pos <= s.len() <= usize::MAX,
    ensures
        tokens_from(s, pos) matches Ok(ts) ==> forall|i: int|
            0 <= i < ts.len() ==> token_shaped(s, #[trigger] ts[i]),
    decreases s.len() - pos,
{
    if pos < s.len() {
        lemma_token_step(s, pos);
        let (res, next) = token_step(s, pos);
        lemma_tokens_shaped(s, next);
        if let Ok(t) = res {
            lemma_control_not_dle(s[pos]);
            if s[pos] >= 0x20 {
                lemma_data_run(s, pos + 1);
            }
            assert(token_shaped(s, t));
            if let Ok(ts) = tokens_from(s, next) {
                let all = seq![t] + ts;
                assert forall|i: int| 0 <= i < all.len() implies token_shaped(s, #[trigger] all[i]) by {
                    if i > 0 {
                        assert(all[i] == ts[i - 1]);
                    }
                }
            }
        }
    }
}

/// Every token `tokenize` gives has its shape: non-empty, inside the
/// buffer, one control byte or a run of text (or one escaped byte), never a
/// DLE.
pub proof fn tokens_are_shaped(s: Seq<u8>)
    requires
        s.len() <= usize::MAX,
    ensures
        tokens_of(s) matches Ok(ts) ==> forall|i: int| 0 <= i < ts.len() ==> token_shaped(s, #[trigger] ts[i]),
{
    lemma_tokens_shaped(s, 0);
}

/// The byte a control token kind stands for; data has none, and DLE is
/// never a token.
pub open spec fn kind_code(k: TokenType) -> Option<u8> {
    match k {
        TokenType::Soh => Some(crate::SOH),
        TokenType::Stx => Some(crate::STX),
        TokenType::Etx => Some(crate::ETX),
        TokenType::Eot => Some(crate::EOT),
        TokenType::Enq => Some(crate::ENQ),
        TokenType::Etb => Some(crate::ETB),
        TokenType::Sub => Some(crate::SUB),
        TokenType::Fs => Some(crate::FS),
        TokenType::Gs => Some(crate::GS),
        TokenType::Rs => Some(crate::RS),
        TokenType::Us => Some(crate::US),
        _ => None,
    }
}

/// A control byte's kind names that byte: no two bytes share a kind, and
/// every assigned code but DLE has one.
pub proof fn control_kinds_are_distinct(a: u8, b: u8)
    ensures
        control_kind(a) matches Some(k) ==> kind_code(k) == Some(a),
        control_kind(a) is Some && control_kind(a) == control_kind(b) ==> a == b,
        crate::assigned_code(a) && a != DLE ==> control_kind(a) is Some,
{
}

/// Every control token `tokenize` gives is the one byte its kind names.
pub proof fn control_tokens_name_their_byte(s: Seq<u8>)
    requires
        s.len() <= usize::MAX,
    ensures
        tokens_of(s) matches Ok(ts) ==> forall|i: int|
            0 <= i < ts.len() && (#[trigger] ts[i]).kind != TokenType::Data ==> kind_code(ts[i].kind)
                == Some(s[ts[i].start as int]),
{
    lemma_tokens_shaped(s, 0);
    if let Ok(ts) = tokens_of(s) {
        assert forall|i: int|
            0 <= i < ts.len() && (#[trigger] ts[i]).kind != TokenType::Data implies kind_code(ts[i].kind)
                == Some(s[ts[i].start as int]) by {
            assert(token_shaped(s, ts[i]));
            control_kinds_are_distinct(s[ts[i].start as int], 0);
        }
    }
}

} // verus!
