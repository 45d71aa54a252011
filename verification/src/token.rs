use vstd::prelude::*;

use crate::{ENQ, EOT, ETB, ETX, FS, GS, RS, SOH, STX, SUB, US};

verus! {

/// The kind of a token emitted by the [`Tokenizer`](crate::Tokenizer).
#[derive(Debug, Clone, Copy, PartialEq, Eq, Hash, Structural)]
pub enum TokenType {
    /// Data content between control codes.
    Data,
    Soh,
    Stx,
    Etx,
    Eot,
    Enq,
    /// Escape: consumed during tokenization, never emitted as its own token.
    Dle,
    Etb,
    Sub,
    Fs,
    Gs,
    Rs,
    Us,
}

/// The token kind of an assigned control byte other than DLE.
pub open spec fn control_kind(byte: u8) -> Option<TokenType> {
    if byte == SOH {
        Some(TokenType::Soh)
    } else if byte == STX {
        Some(TokenType::Stx)
    } else if byte == ETX {
        Some(TokenType::Etx)
    } else if byte == EOT {
        Some(TokenType::Eot)
    } else if byte == ENQ {
        Some(TokenType::Enq)
    } else if byte == ETB {
        Some(TokenType::Etb)
    } else if byte == SUB {
        Some(TokenType::Sub)
    } else if byte == FS {
        Some(TokenType::Fs)
    } else if byte == GS {
        Some(TokenType::Gs)
    } else if byte == RS {
        Some(TokenType::Rs)
    } else if byte == US {
        Some(TokenType::Us)
    } else {
        None
    }
}

impl TokenType {
    /// The token type for an assigned control byte, or `None` if unassigned.
    /// `DLE` returns `None` because it is consumed, not emitted.
    pub(crate) fn control(byte: u8) -> (r: Option<TokenType>)
        ensures
            r == control_kind(byte),
    {
        if byte == SOH {
            Some(TokenType::Soh)
        } else if byte == STX {
            Some(TokenType::Stx)
        } else if byte == ETX {
            Some(TokenType::Etx)
        } else if byte == EOT {
            Some(TokenType::Eot)
        } else if byte == ENQ {
            Some(TokenType::Enq)
        } else if byte == ETB {
            Some(TokenType::Etb)
        } else if byte == SUB {
            Some(TokenType::Sub)
        } else if byte == FS {
            Some(TokenType::Fs)
        } else if byte == GS {
            Some(TokenType::Gs)
        } else if byte == RS {
            Some(TokenType::Rs)
        } else if byte == US {
            Some(TokenType::Us)
        } else {
            None
        }
    }
}

/// A token as offsets into the source buffer.
#[derive(Debug, Clone, Copy, PartialEq, Eq, Structural)]
pub struct Token {
    pub kind: TokenType,
    pub start: usize,
    pub end: usize,
}

impl Token {
    /// Byte length of this token's span.
    pub fn size(&self) -> (r: usize)
        requires
            self.start <= self.end,
        ensures
            r == self.end - self.start,
    {
        self.end - self.start
    }

    /// The token's bytes as a slice into `buf`.
    pub fn value<'a>(&self, buf: &'a [u8]) -> (r: &'a [u8])
        requires
            self.start <= self.end <= buf@.len(),
        ensures
            r@ == buf@.subrange(self.start as int, self.end as int),
    {
        vstd::slice::slice_subrange(buf, self.start, self.end)
    }
}

} // verus!
