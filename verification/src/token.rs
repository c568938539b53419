//! The tokens that tokenization produces.
use vstd::prelude::*;
use crate::spec::SpecToken;

verus! {

/// A CSS token. Text is held as a `String`; the bounds of a unicode range
/// are code points, which need not name characters (a range may start or
/// end among the surrogates).
#[derive(Debug, PartialEq, Eq)]
pub enum Token {
    Ident(String),
    Function(String),
    AtKeyword(String),
    Hash(String),
    String(String),
    BadString,
    URL(String),
    BadURL,
    Delim(char),
    UnicodeRange(u32, u32),  // start, end
    EmptyUnicodeRange,
    WhiteSpace,
    Comment,
    CDO,  // <!--
    CDC,  // -->
    Colon,  // :
    Semicolon,  // ;
    OpenBraket,  // [
    OpenParen,  // (
    OpenBrace,  // {
    CloseBraket,  // ]
    CloseParen,  // )
    CloseBrace,  // }
}

impl View for Token {
    type V = SpecToken;

    open spec fn view(&self) -> SpecToken {
        match self {
            Token::Ident(v) => SpecToken::Ident(v@),
            Token::Function(v) => SpecToken::Function(v@),
            Token::AtKeyword(v) => SpecToken::AtKeyword(v@),
            Token::Hash(v) => SpecToken::Hash(v@),
            Token::String(v) => SpecToken::String(v@),
            Token::BadString => SpecToken::BadString,
            Token::URL(v) => SpecToken::URL(v@),
            Token::BadURL => SpecToken::BadURL,
            Token::Delim(c) => SpecToken::Delim(*c),
            Token::UnicodeRange(a, b) => SpecToken::UnicodeRange(*a, *b),
            Token::EmptyUnicodeRange => SpecToken::EmptyUnicodeRange,
            Token::WhiteSpace => SpecToken::WhiteSpace,
            Token::Comment => SpecToken::Comment,
            Token::CDO => SpecToken::CDO,
            Token::CDC => SpecToken::CDC,
            Token::Colon => SpecToken::Colon,
            Token::Semicolon => SpecToken::Semicolon,
            Token::OpenBraket => SpecToken::OpenBraket,
            Token::OpenParen => SpecToken::OpenParen,
            Token::OpenBrace => SpecToken::OpenBrace,
            Token::CloseBraket => SpecToken::CloseBraket,
            Token::CloseParen => SpecToken::CloseParen,
            Token::CloseBrace => SpecToken::CloseBrace,
        }
    }
}

} // verus!
