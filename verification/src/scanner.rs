//! The tokens of the notation for regular expressions.

use vstd::prelude::*;

verus! {

/// An operator between two expressions.
#[derive(Debug, Clone, Copy, PartialEq, Eq, Structural)]
pub enum BinOp {
    /// `|`: one or the other.
    Or,
}

/// An operator in front of an expression.
#[derive(Debug, Clone, Copy, PartialEq, Eq, Structural)]
pub enum PrefixOp {
    /// `^`: anything but.
    Not,
}

/// An operator behind an expression.
#[derive(Debug, Clone, Copy, PartialEq, Eq, Structural)]
pub enum PostfixOp {
    /// `?`: once or not at all.
    Maybe,
    /// `*`: any number of times.
    Repeating,
    /// `+`: once or more.
    AtLeastOne,
}

/// A token of the notation.
#[derive(Debug, Clone, Copy, PartialEq, Eq, Structural)]
pub enum Token {
    /// A character that stands for itself.
    Char(char),
    /// `.`: any character.
    Any,
    /// An operator between two expressions.
    BinOp(BinOp),
    /// An operator in front of an expression.
    PrefixOp(PrefixOp),
    /// An operator behind an expression.
    PostfixOp(PostfixOp),
    /// `(`
    LParen,
    /// `)`
    RParen,
    /// `[`
    LBracket,
    /// `]`
    RBracket,
    /// `\`: the next character stands for itself.
    Escape,
    /// `-`: from one character through another.
    Through,
}

/// The token that the character `c` is in the notation.
pub open spec fn token_of(c: char) -> Token {
    if c == '.' {
        Token::Any
    } else if c == '^' {
        Token::PrefixOp(PrefixOp::Not)
    } else if c == '|' {
        Token::BinOp(BinOp::Or)
    } else if c == '?' {
        Token::PostfixOp(PostfixOp::Maybe)
    } else if c == '*' {
        Token::PostfixOp(PostfixOp::Repeating)
    } else if c == '+' {
        Token::PostfixOp(PostfixOp::AtLeastOne)
    } else if c == '(' {
        Token::LParen
    } else if c == ')' {
        Token::RParen
    } else if c == '[' {
        Token::LBracket
    } else if c == ']' {
        Token::RBracket
    } else if c == '\\' {
        Token::Escape
    } else if c == '-' {
        Token::Through
    } else {
        Token::Char(c)
    }
}

/// Reads one character of the notation.
pub fn scan_token(c: char) -> (r: Token)
    ensures
        r == token_of(c),
        r is Char ==> r == Token::Char(c),
{
    match c {
        '.' => Token::Any,
        '^' => Token::PrefixOp(PrefixOp::Not),
        '|' => Token::BinOp(BinOp::Or),
        '?' => Token::PostfixOp(PostfixOp::Maybe),
        '*' => Token::PostfixOp(PostfixOp::Repeating),
        '+' => Token::PostfixOp(PostfixOp::AtLeastOne),
        '(' => Token::LParen,
        ')' => Token::RParen,
        '[' => Token::LBracket,
        ']' => Token::RBracket,
        '\\' => Token::Escape,
        '-' => Token::Through,
        x => Token::Char(x),
    }
}

} // verus!
