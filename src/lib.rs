//! A backtracking lexer: a restorable cursor over source text, a set of
//! token rules tried in a fixed order, and the entry point that turns a
//! whole source text into a sequence of tokens with byte spans.
pub mod grammar;
pub mod input;
pub mod lex;
pub mod lexeme;
pub mod parser;
pub mod text;

pub use input::{to_lex_input, CharClass, Input, RestorePoint};
pub use lex::{
    dispatch, lex, rules, BoolLexer, IntegerLexer, JunkLexer, KeywordLexer, Lexer,
    PunctuationLexer, Rule, StringLexer, SymbolLexer,
};
pub use lexeme::{Decimal, Lexeme, Token};
pub use parser::{to_parse_input, ParseInput, Parser};
