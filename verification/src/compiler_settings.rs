//! The fixed tables of the language: its character classes, its reserved
//! words and the punctuation that stands for itself.

use vstd::prelude::*;

verus! {

/// The character that ends a statement.
pub const LINE_SPLITTER: char = ';';

/// The character that opens and closes a string literal.
pub const QUOTE: char = '"';

/// Blank characters: they separate tokens and are otherwise ignored.
pub open spec fn whitespace(c: char) -> bool {
    c == ' ' || c == '\n' || c == '\t' || c == '\r'
}

/// ASCII letters and the underscore: what an identifier may begin with.
pub open spec fn identifier_start(c: char) -> bool {
    ('a' <= c && c <= 'z') || ('A' <= c && c <= 'Z') || c == '_'
}

/// ASCII decimal digits.
pub open spec fn digit(c: char) -> bool {
    '0' <= c && c <= '9'
}

/// What an identifier may continue with: letters, digits and the underscore.
pub open spec fn identifier_part(c: char) -> bool {
    identifier_start(c) || digit(c)
}

/// What a numeral may continue with: digits and dots, in any arrangement.
pub open spec fn numeral_part(c: char) -> bool {
    digit(c) || c == '.'
}

/// The characters that may join a following `=` into a two-character operator.
pub open spec fn operator_prefix(c: char) -> bool {
    c == '=' || c == '!' || c == '<' || c == '>'
}

/// The arithmetic operators of one character.
pub open spec fn math_symbol(c: char) -> bool {
    c == '+' || c == '-' || c == '*' || c == '/'
}

#[verifier::when_used_as_spec(whitespace)]
pub fn is_whitespace(c: char) -> (r: bool)
    ensures
        r == whitespace(c),
{
    c == ' ' || c == '\n' || c == '\t' || c == '\r'
}

#[verifier::when_used_as_spec(identifier_start)]
pub fn is_identifier_start(c: char) -> (r: bool)
    ensures
        r == identifier_start(c),
{
    (c >= 'a' && c <= 'z') || (c >= 'A' && c <= 'Z') || c == '_'
}

#[verifier::when_used_as_spec(digit)]
pub fn is_digit(c: char) -> (r: bool)
    ensures
        r == digit(c),
{
    c >= '0' && c <= '9'
}

#[verifier::when_used_as_spec(identifier_part)]
pub fn is_identifier_part(c: char) -> (r: bool)
    ensures
        r == identifier_part(c),
{
    is_identifier_start(c) || is_digit(c)
}

#[verifier::when_used_as_spec(numeral_part)]
pub fn is_numeral_part(c: char) -> (r: bool)
    ensures
        r == numeral_part(c),
{
    is_digit(c) || c == '.'
}

#[verifier::when_used_as_spec(operator_prefix)]
pub fn is_operator_prefix(c: char) -> (r: bool)
    ensures
        r == operator_prefix(c),
{
    c == '=' || c == '!' || c == '<' || c == '>'
}

#[verifier::when_used_as_spec(math_symbol)]
pub fn is_math_symbol(c: char) -> (r: bool)
    ensures
        r == math_symbol(c),
{
    c == '+' || c == '-' || c == '*' || c == '/'
}

/// The reserved words, by what they introduce. `function` and `fn` are two
/// spellings of one word.
#[derive(Clone, Copy, Debug, PartialEq, Eq, Structural)]
pub enum Keyword {
    Let,
    Function,
    Call,
    Return,
    If,
    While,
}

/// The reserved word that `text` spells, if it spells one.
pub open spec fn keyword(text: Seq<char>) -> Option<Keyword> {
    if text == "let"@ {
        Some(Keyword::Let)
    } else if text == "function"@ || text == "fn"@ {
        Some(Keyword::Function)
    } else if text == "call"@ {
        Some(Keyword::Call)
    } else if text == "return"@ {
        Some(Keyword::Return)
    } else if text == "if"@ {
        Some(Keyword::If)
    } else if text == "while"@ {
        Some(Keyword::While)
    } else {
        None
    }
}

/// Whether `text` and `word` hold the same characters.
pub fn spells(text: &[char], word: &str) -> (r: bool)
    ensures
        r == (text@ == word@),
{
    let mut at: usize = 0;
    for c in it: word.chars()
        invariant
            it.seq() == word@,
            at == it.index(),
            at <= text@.len(),
            text@.take(at as int) == word@.take(at as int),
    {
        if at >= text.len() || text[at] != c {
            proof {
                if text@ == word@ {
                    assert(word@[at as int] == c);
                }
            }
            return false;
        }
        proof {
            assert(text@.take(at + 1) == text@.take(at as int).push(text@[at as int]));
            assert(word@.take(at + 1) == word@.take(at as int).push(word@[at as int]));
        }
        at += 1;
    }
    proof {
        assert(word@.take(word@.len() as int) == word@);
        if at == text@.len() {
            assert(text@.take(at as int) == text@);
        }
    }
    at == text.len()
}

/// Looks `text` up among the reserved words.
pub fn find_keyword(text: &[char]) -> (r: Option<Keyword>)
    ensures
        r == keyword(text@),
{
    if spells(text, "let") {
        Some(Keyword::Let)
    } else if spells(text, "function") || spells(text, "fn") {
        Some(Keyword::Function)
    } else if spells(text, "call") {
        Some(Keyword::Call)
    } else if spells(text, "return") {
        Some(Keyword::Return)
    } else if spells(text, "if") {
        Some(Keyword::If)
    } else if spells(text, "while") {
        Some(Keyword::While)
    } else {
        None
    }
}

} // verus!
