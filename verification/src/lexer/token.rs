//! Token data type.
use vstd::prelude::*;
use crate::source::Span;

verus! {

/// Kinds of tokens.
#[derive(Debug, PartialEq, Eq, Structural, Copy, Clone)]
pub enum TokenKind {
    /// `[`
    VecStart,
    /// `]`
    VecEnd,
    /// `(`
    ListStart,
    /// `)`
    ListEnd,
    /// `'`
    Quote,
    /// Numeric token.
    Number,
    /// Any generic symbol.
    Symbol,
    /// `$<Symbol>`
    Bind,
    /// `^<Symbol>`
    Load,
}

/// The name of a token kind, as it is logged.
pub open spec fn token_kind_name(k: TokenKind) -> Seq<char> {
    match k {
        TokenKind::VecStart => "VecStart"@,
        TokenKind::VecEnd => "VecEnd"@,
        TokenKind::ListStart => "ListStart"@,
        TokenKind::ListEnd => "ListEnd"@,
        TokenKind::Quote => "Quote"@,
        TokenKind::Number => "Number"@,
        TokenKind::Symbol => "Symbol"@,
        TokenKind::Bind => "Bind"@,
        TokenKind::Load => "Load"@,
    }
}

impl TokenKind {
    /// The name of this kind, as it is logged.
    pub fn name(&self) -> (r: &'static str)
        ensures
            r@ == token_kind_name(*self),
    {
        match self {
            TokenKind::VecStart => "VecStart",
            TokenKind::VecEnd => "VecEnd",
            TokenKind::ListStart => "ListStart",
            TokenKind::ListEnd => "ListEnd",
            TokenKind::Quote => "Quote",
            TokenKind::Number => "Number",
            TokenKind::Symbol => "Symbol",
            TokenKind::Bind => "Bind",
            TokenKind::Load => "Load",
        }
    }

    /// Whether this kind closes a container.
    pub fn is_closer(&self) -> (r: bool)
        ensures
            r == (*self is VecEnd || *self is ListEnd),
    {
        match self {
            TokenKind::VecEnd | TokenKind::ListEnd => true,
            _ => false,
        }
    }
}

/// Token type.
#[derive(Debug, PartialEq, Eq, Structural, Copy, Clone)]
pub struct Token {
    /// Kind of token.
    pub kind: TokenKind,
    /// Span within source of the token.
    pub span: Span,
}

impl Token {
    /// The span of the name a [`TokenKind::Bind`] or [`TokenKind::Load`]
    /// token carries: everything after its one-byte sigil.  Other tokens
    /// name their whole span.
    pub fn symbol_span(&self) -> (r: Span)
        requires
            self.span.start <= self.span.end,
            (self.kind is Bind || self.kind is Load) ==> self.span.start < self.span.end,
        ensures
            r.end == self.span.end,
            r.start == if self.kind is Bind || self.kind is Load {
                self.span.start + 1
            } else {
                self.span.start as int
            },
    {
        match self.kind {
            TokenKind::Bind | TokenKind::Load => Span::from_u32(self.span.start + 1, self.span.end),
            _ => self.span,
        }
    }
}

} // verus!
