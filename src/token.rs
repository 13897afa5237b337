//! The token taxonomy and the byte classes that the matching rules are built from.

use vstd::prelude::*;

verus! {

/// A lexical error category.
#[derive(Default, Debug, Clone, Copy, PartialEq, Eq, Structural)]
pub enum LexicalError {
    /// No rule matches at the cursor.
    #[default]
    UnrecognizedToken,
    /// A string literal was opened and never closed.
    UnclosedStringLiteral,
}

/// A lexical category.
#[derive(Debug, Clone, Copy, PartialEq, Eq, Structural)]
pub enum Token {
    Pipe,
    Mold,
    Claim,
    Always,
    LeftPointer,
    RightPointer,
    OpenBracket,
    CloseBracket,
    Plus,
    Minus,
    Multiply,
    Divide,
    Equal,
    NotEqual,
    GreaterThan,
    LessThan,
    GreaterThanOrEqual,
    LessThanOrEqual,
    PlusEqual,
    MinusEqual,
    MultiplyEqual,
    DivideEqual,
    DoubleColon,
    QuestionMark,
    Assign,
    Whence,
    OrWhence,
    Other,
    Increment,
    Decrement,
    For,
    While,
    ForIn,
    /// Digits, optionally followed by `.` and more digits.
    Number,
    /// A double-quoted literal in which a backslash escapes the next character.
    String,
    /// A letter or underscore followed by letters, digits and underscores.
    Identifier,
    /// An opening quote that is never closed; it only ever leads to a diagnostic.
    UnclosedString,
}

/// The exact text of a fixed-text token; empty for the pattern tokens.
pub open spec fn fixed_text(t: Token) -> Seq<u8> {
    match t {
        Token::Pipe => seq!['|' as u8],
        Token::Mold => seq!['m' as u8, 'o' as u8, 'l' as u8, 'd' as u8],
        Token::Claim => seq!['c' as u8, 'l' as u8, 'a' as u8, 'i' as u8, 'm' as u8],
        Token::Always => seq!['a' as u8, 'l' as u8, 'w' as u8, 'a' as u8, 'y' as u8, 's' as u8],
        Token::LeftPointer => seq!['-' as u8, '>' as u8],
        Token::RightPointer => seq!['<' as u8, '-' as u8],
        Token::OpenBracket => seq!['[' as u8],
        Token::CloseBracket => seq![']' as u8],
        Token::Plus => seq!['+' as u8],
        Token::Minus => seq!['-' as u8],
        Token::Multiply => seq!['*' as u8],
        Token::Divide => seq!['/' as u8],
        Token::Equal => seq!['=' as u8, '=' as u8],
        Token::NotEqual => seq!['!' as u8, '=' as u8],
        Token::GreaterThan => seq!['>' as u8],
        Token::LessThan => seq!['<' as u8],
        Token::GreaterThanOrEqual => seq!['>' as u8, '=' as u8],
        Token::LessThanOrEqual => seq!['<' as u8, '=' as u8],
        Token::PlusEqual => seq!['+' as u8, '=' as u8],
        Token::MinusEqual => seq!['-' as u8, '=' as u8],
        Token::MultiplyEqual => seq!['*' as u8, '=' as u8],
        Token::DivideEqual => seq!['/' as u8, '=' as u8],
        Token::DoubleColon => seq![':' as u8, ':' as u8],
        Token::QuestionMark => seq!['?' as u8],
        Token::Assign => seq!['=' as u8],
        Token::Whence => seq!['w' as u8, 'h' as u8, 'e' as u8, 'n' as u8, 'c' as u8, 'e' as u8],
        Token::OrWhence => seq![
            'o' as u8, 'r' as u8, 'w' as u8, 'h' as u8, 'e' as u8, 'n' as u8, 'c' as u8, 'e' as u8,
        ],
        Token::Other => seq!['o' as u8, 't' as u8, 'h' as u8, 'e' as u8, 'r' as u8],
        Token::Increment => seq!['+' as u8, '+' as u8],
        Token::Decrement => seq!['-' as u8, '-' as u8],
        Token::For => seq!['f' as u8, 'o' as u8, 'r' as u8],
        Token::While => seq!['w' as u8, 'h' as u8, 'i' as u8, 'l' as u8, 'e' as u8],
        Token::ForIn => seq!['f' as u8, 'o' as u8, 'r' as u8, 'i' as u8, 'n' as u8],
        _ => seq![],
    }
}

/// The keywords: fixed-text tokens spelled with letters.
pub open spec fn is_keyword(t: Token) -> bool {
    t is Mold || t is Claim || t is Always || t is Whence || t is OrWhence || t is Other
        || t is For || t is While || t is ForIn
}

/// The keyword that a word spells, or `Identifier` when it spells none.
pub open spec fn word_token(w: Seq<u8>) -> Token {
    if w == fixed_text(Token::Mold) {
        Token::Mold
    } else if w == fixed_text(Token::Claim) {
        Token::Claim
    } else if w == fixed_text(Token::Always) {
        Token::Always
    } else if w == fixed_text(Token::Whence) {
        Token::Whence
    } else if w == fixed_text(Token::OrWhence) {
        Token::OrWhence
    } else if w == fixed_text(Token::Other) {
        Token::Other
    } else if w == fixed_text(Token::For) {
        Token::For
    } else if w == fixed_text(Token::While) {
        Token::While
    } else if w == fixed_text(Token::ForIn) {
        Token::ForIn
    } else {
        Token::Identifier
    }
}


/// The text of keyword `t`.
fn keyword_text(t: Token) -> (r: Vec<u8>)
    requires
        is_keyword(t),
    ensures
        r@ == fixed_text(t),
{
    match t {
        Token::Mold => vec!['m' as u8, 'o' as u8, 'l' as u8, 'd' as u8],
        Token::Claim => vec!['c' as u8, 'l' as u8, 'a' as u8, 'i' as u8, 'm' as u8],
        Token::Always => vec!['a' as u8, 'l' as u8, 'w' as u8, 'a' as u8, 'y' as u8, 's' as u8],
        Token::Whence => vec!['w' as u8, 'h' as u8, 'e' as u8, 'n' as u8, 'c' as u8, 'e' as u8],
        Token::OrWhence => vec![
            'o' as u8, 'r' as u8, 'w' as u8, 'h' as u8, 'e' as u8, 'n' as u8, 'c' as u8, 'e' as u8,
        ],
        Token::Other => vec!['o' as u8, 't' as u8, 'h' as u8, 'e' as u8, 'r' as u8],
        Token::For => vec!['f' as u8, 'o' as u8, 'r' as u8],
        Token::While => vec!['w' as u8, 'h' as u8, 'i' as u8, 'l' as u8, 'e' as u8],
        Token::ForIn => vec!['f' as u8, 'o' as u8, 'r' as u8, 'i' as u8, 'n' as u8],
        _ => Vec::new(),
    }
}

/// Whether `bytes[p..e]` is exactly `text`.
fn spells(bytes: &[u8], p: usize, e: usize, text: &Vec<u8>) -> (r: bool)
    requires
        p <= e <= bytes@.len(),
    ensures
        r == (bytes@.subrange(p as int, e as int) == text@),
{
    if e - p != text.len() {
        return false;
    }
    let mut i: usize = 0;
    while i < text.len()
        invariant
            e - p == text@.len(),
            p <= e <= bytes@.len(),
            i <= text@.len(),
            forall|j: int| 0 <= j < i ==> bytes@[p + j] == text@[j],
        decreases text@.len() - i,
    {
        if bytes[p + i] != text[i] {
            assert(bytes@.subrange(p as int, e as int)[i as int] != text@[i as int]);
            return false;
        }
        i = i + 1;
    }
    assert(bytes@.subrange(p as int, e as int) =~= text@);
    true
}

/// Classifies the word `bytes[p..e]`: its keyword, or `Identifier`.
pub fn classify_word(bytes: &[u8], p: usize, e: usize) -> (t: Token)
    requires
        p <= e <= bytes@.len(),
    ensures
        t == word_token(bytes@.subrange(p as int, e as int)),
{
    if spells(bytes, p, e, &keyword_text(Token::Mold)) {
        return Token::Mold;
    }
    if spells(bytes, p, e, &keyword_text(Token::Claim)) {
        return Token::Claim;
    }
    if spells(bytes, p, e, &keyword_text(Token::Always)) {
        return Token::Always;
    }
    if spells(bytes, p, e, &keyword_text(Token::Whence)) {
        return Token::Whence;
    }
    if spells(bytes, p, e, &keyword_text(Token::OrWhence)) {
        return Token::OrWhence;
    }
    if spells(bytes, p, e, &keyword_text(Token::Other)) {
        return Token::Other;
    }
    if spells(bytes, p, e, &keyword_text(Token::For)) {
        return Token::For;
    }
    if spells(bytes, p, e, &keyword_text(Token::While)) {
        return Token::While;
    }
    if spells(bytes, p, e, &keyword_text(Token::ForIn)) {
        return Token::ForIn;
    }
    Token::Identifier
}

} // verus!
