//! Tokens: what the lexer produces.
use vstd::prelude::*;

verus! {

/// A decimal number written with a fractional part: its value is
/// `mantissa / 10^scale`, where `scale` is the number of digits written after
/// the point (`-1234.5678` is mantissa `-12345678`, scale `4`).
#[derive(Clone, Copy, Debug, PartialEq, Eq)]
pub struct Decimal {
    pub mantissa: i64,
    pub scale: usize,
}

/// A lexical unit and its payload.
#[derive(Clone, Debug, PartialEq)]
pub enum Lexeme {
    Junk,
    RParen,
    LParen,
    RAngle,
    LAngle,
    RCurl,
    LCurl,
    RightDoubleArrow,
    OrBar,
    Fun,
    Let,
    Data,
    Spec,
    SemiColon,
    Comma,
    Equal,
    LowerCaseSymbol(String),
    UpperCaseSymbol(String),
    Bool(bool),
    Integer(i64),
    Decimal(Decimal),
    String(String),
}

/// The mathematical value of a `Lexeme`: texts as character sequences.
pub enum LexemeView {
    Junk,
    RParen,
    LParen,
    RAngle,
    LAngle,
    RCurl,
    LCurl,
    RightDoubleArrow,
    OrBar,
    Fun,
    Let,
    Data,
    Spec,
    SemiColon,
    Comma,
    Equal,
    LowerCaseSymbol(Seq<char>),
    UpperCaseSymbol(Seq<char>),
    Bool(bool),
    Integer(i64),
    Decimal(Decimal),
    String(Seq<char>),
}

impl View for Lexeme {
    type V = LexemeView;

    open spec fn view(&self) -> LexemeView {
        match self {
            Lexeme::Junk => LexemeView::Junk,
            Lexeme::RParen => LexemeView::RParen,
            Lexeme::LParen => LexemeView::LParen,
            Lexeme::RAngle => LexemeView::RAngle,
            Lexeme::LAngle => LexemeView::LAngle,
            Lexeme::RCurl => LexemeView::RCurl,
            Lexeme::LCurl => LexemeView::LCurl,
            Lexeme::RightDoubleArrow => LexemeView::RightDoubleArrow,
            Lexeme::OrBar => LexemeView::OrBar,
            Lexeme::Fun => LexemeView::Fun,
            Lexeme::Let => LexemeView::Let,
            Lexeme::Data => LexemeView::Data,
            Lexeme::Spec => LexemeView::Spec,
            Lexeme::SemiColon => LexemeView::SemiColon,
            Lexeme::Comma => LexemeView::Comma,
            Lexeme::Equal => LexemeView::Equal,
            Lexeme::LowerCaseSymbol(s) => LexemeView::LowerCaseSymbol(s@),
            Lexeme::UpperCaseSymbol(s) => LexemeView::UpperCaseSymbol(s@),
            Lexeme::Bool(b) => LexemeView::Bool(*b),
            Lexeme::Integer(n) => LexemeView::Integer(*n),
            Lexeme::Decimal(d) => LexemeView::Decimal(*d),
            Lexeme::String(s) => LexemeView::String(s@),
        }
    }
}

impl Lexeme {
    /// A copy of this lexeme.
    pub fn duplicate(&self) -> (r: Lexeme)
        ensures
            r@ == self@,
    {
        match self {
            Lexeme::Junk => Lexeme::Junk,
            Lexeme::RParen => Lexeme::RParen,
            Lexeme::LParen => Lexeme::LParen,
            Lexeme::RAngle => Lexeme::RAngle,
            Lexeme::LAngle => Lexeme::LAngle,
            Lexeme::RCurl => Lexeme::RCurl,
            Lexeme::LCurl => Lexeme::LCurl,
            Lexeme::RightDoubleArrow => Lexeme::RightDoubleArrow,
            Lexeme::OrBar => Lexeme::OrBar,
            Lexeme::Fun => Lexeme::Fun,
            Lexeme::Let => Lexeme::Let,
            Lexeme::Data => Lexeme::Data,
            Lexeme::Spec => Lexeme::Spec,
            Lexeme::SemiColon => Lexeme::SemiColon,
            Lexeme::Comma => Lexeme::Comma,
            Lexeme::Equal => Lexeme::Equal,
            Lexeme::LowerCaseSymbol(s) => Lexeme::LowerCaseSymbol(s.clone()),
            Lexeme::UpperCaseSymbol(s) => Lexeme::UpperCaseSymbol(s.clone()),
            Lexeme::Bool(b) => Lexeme::Bool(*b),
            Lexeme::Integer(n) => Lexeme::Integer(*n),
            Lexeme::Decimal(d) => Lexeme::Decimal(*d),
            Lexeme::String(s) => Lexeme::String(s.clone()),
        }
    }
}

/// A lexeme with the byte span `[start, end)` of source text it was read from.
#[derive(Clone, Debug, PartialEq)]
pub struct Token {
    pub lexeme: Lexeme,
    pub start: usize,
    pub end: usize,
}

/// The mathematical value of a `Token`.
pub struct TokenView {
    pub lexeme: LexemeView,
    pub start: int,
    pub end: int,
}

impl View for Token {
    type V = TokenView;

    open spec fn view(&self) -> TokenView {
        TokenView { lexeme: self.lexeme@, start: self.start as int, end: self.end as int }
    }
}

impl Token {
    /// Byte offset where the token starts.
    pub fn start_index(&self) -> (r: usize)
        ensures
            r == self.start,
    {
        self.start
    }

    /// Byte offset just past the token's end.
    pub fn end_index(&self) -> (r: usize)
        ensures
            r == self.end,
    {
        self.end
    }

    /// A copy of this token.
    pub fn duplicate(&self) -> (r: Token)
        ensures
            r@ == self@,
    {
        Token { lexeme: self.lexeme.duplicate(), start: self.start, end: self.end }
    }
}

} // verus!
