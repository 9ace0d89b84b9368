//! The tokenizer: source text in, positioned tokens out.
//!
//! The tokenizer never fails. It is lenient: a character that begins no token
//! is passed over in silence, so the tokens may leave out part of the text.
//! Positions count every character all the same, whether it was part of a
//! token or not.

use crate::compiler_settings::{
    digit, find_keyword, identifier_part, identifier_start, is_digit, is_identifier_part,
    is_identifier_start, is_math_symbol, is_operator_prefix, keyword, math_symbol, operator_prefix,
};
use vstd::prelude::*;
use vstd::slice::slice_subrange;

verus! {

/// The kinds of token.
///
/// Round brackets and curly brackets are kinds apart: the first group and hold
/// argument lists, the second enclose statement bodies. `EndOfStream` is never
/// produced by the tokenizer; it is what a reader of tokens sees once the
/// tokens have run out.
#[derive(Clone, Copy, Debug, PartialEq, Eq, Structural)]
pub enum LexSymbol {
    Keyword,
    Identifier,
    String,
    Integer,
    GenericOpeningBracket,
    GenericClosingBracket,
    BlockOpeningBracket,
    BlockClosingBracket,
    OperationalSymbol,
    EqualSign,
    EndOfStatement,
    Dot,
    DoubleDot,
    Comma,
    EndOfStream,
}

/// A place in the source text. Lines and columns are counted from one, and a
/// column is a count of characters.
#[derive(Clone, Copy, Debug, PartialEq, Eq, Structural)]
pub struct Location {
    pub line: usize,
    pub column: usize,
}

/// A token: its kind, its text, and where its first character stands.
///
/// The text of a string literal is what stands between the quotes.
#[derive(Clone, Debug, PartialEq, Eq)]
pub struct Lexeme {
    pub symbol: LexSymbol,
    pub value: String,
    pub location: Location,
}

/// What a `Lexeme` stands for in specifications.
pub struct Token {
    pub symbol: LexSymbol,
    pub value: Seq<char>,
    pub location: Location,
}

impl View for Lexeme {
    type V = Token;

    open spec fn view(&self) -> Token {
        Token { symbol: self.symbol, value: self.value@, location: self.location }
    }
}

impl DeepView for Lexeme {
    type V = Token;

    open spec fn deep_view(&self) -> Token {
        self@
    }
}

impl Lexeme {
    /// A token of the given kind and text, placed at the start of the text.
    pub fn new(symbol: LexSymbol, value: String) -> (lexeme: Self)
        ensures
            lexeme.symbol == symbol,
            lexeme.value == value,
            lexeme.location == (Location { line: 1, column: 1 }),
    {
        Lexeme { symbol: symbol, value: value, location: Location { line: 1, column: 1 } }
    }

    /// The same token at another place.
    pub fn at(self, line: usize, column: usize) -> (lexeme: Self)
        ensures
            lexeme.symbol == self.symbol,
            lexeme.value == self.value,
            lexeme.location == (Location { line, column }),
    {
        Lexeme { symbol: self.symbol, value: self.value, location: Location { line, column } }
    }
}

/// The runs of like characters that the longer tokens are made of.
#[derive(Clone, Copy, Debug, PartialEq, Eq, Structural)]
pub enum Run {
    /// Letters, digits and underscores.
    Word,
    /// Digits and dots.
    Numeral,
    /// Anything but a quote.
    Quoted,
}

/// Whether `c` may stand in a run of the given kind.
pub open spec fn continues(run: Run, c: char) -> bool {
    match run {
        Run::Word => identifier_part(c),
        Run::Numeral => digit(c) || c == '.',
        Run::Quoted => c != '"',
    }
}

/// Where the longest run of the given kind that begins at `from` ends: at the
/// first character that may not stand in it, or at the end of the text.
pub open spec fn run_end(source: Seq<char>, from: int, run: Run) -> int
    decreases source.len() - from,
{
    if 0 <= from < source.len() && continues(run, source[from]) {
        run_end(source, from + 1, run)
    } else {
        from
    }
}

/// The kind of the tokens that are one fixed character.
pub open spec fn punctuation(c: char) -> Option<LexSymbol> {
    if c == '(' {
        Some(LexSymbol::GenericOpeningBracket)
    } else if c == ')' {
        Some(LexSymbol::GenericClosingBracket)
    } else if c == '{' {
        Some(LexSymbol::BlockOpeningBracket)
    } else if c == '}' {
        Some(LexSymbol::BlockClosingBracket)
    } else if math_symbol(c) {
        Some(LexSymbol::OperationalSymbol)
    } else if c == ';' {
        Some(LexSymbol::EndOfStatement)
    } else if c == '.' {
        Some(LexSymbol::Dot)
    } else if c == ',' {
        Some(LexSymbol::Comma)
    } else if c == ':' {
        Some(LexSymbol::DoubleDot)
    } else {
        None
    }
}

/// The stretch of source that one token takes up: its text is
/// `source[from..to]`, and the next token is looked for from `end` on.
pub struct Extent {
    pub symbol: LexSymbol,
    pub from: int,
    pub to: int,
    pub end: int,
}

/// The token that begins at the character `at`, or `None` where that
/// character begins none.
///
/// - A letter or underscore begins a word, which runs as far as letters,
///   digits and underscores go; it is a keyword if it is reserved.
/// - A digit begins a numeral, which runs as far as digits and dots go.
/// - A quote begins a string, which runs to the next quote or else to the end
///   of the text; its text excludes the quotes.
/// - `=`, `!`, `<` and `>` join a directly following `=` into one operator.
///   Alone, `<` and `>` are operators, `=` is the assignment sign, and `!` is
///   nothing.
/// - Brackets, the arithmetic signs and `; . , :` are tokens by themselves.
pub open spec fn extent_at(source: Seq<char>, at: int) -> Option<Extent>
    recommends
        0 <= at < source.len(),
{
    let c = source[at];
    if identifier_start(c) {
        let end = run_end(source, at, Run::Word);
        let symbol = if keyword(source.subrange(at, end)) is Some {
            LexSymbol::Keyword
        } else {
            LexSymbol::Identifier
        };
        Some(Extent { symbol, from: at, to: end, end })
    } else if digit(c) {
        let end = run_end(source, at, Run::Numeral);
        Some(Extent { symbol: LexSymbol::Integer, from: at, to: end, end })
    } else if c == '"' {
        let close = run_end(source, at + 1, Run::Quoted);
        let end = if close < source.len() {
            close + 1
        } else {
            close
        };
        Some(Extent { symbol: LexSymbol::String, from: at + 1, to: close, end })
    } else if operator_prefix(c) {
        if at + 1 < source.len() && source[at + 1] == '=' {
            Some(Extent { symbol: LexSymbol::OperationalSymbol, from: at, to: at + 2, end: at + 2 })
        } else if c == '=' {
            Some(Extent { symbol: LexSymbol::EqualSign, from: at, to: at + 1, end: at + 1 })
        } else if c == '!' {
            None
        } else {
            Some(Extent { symbol: LexSymbol::OperationalSymbol, from: at, to: at + 1, end: at + 1 })
        }
    } else {
        match punctuation(c) {
            Some(symbol) => Some(Extent { symbol, from: at, to: at + 1, end: at + 1 }),
            None => None,
        }
    }
}

/// The first place at or after `from` where a token begins; the length of the
/// text if there is none.
pub open spec fn token_start(source: Seq<char>, from: int) -> int
    decreases source.len() - from,
{
    if from < 0 || from >= source.len() {
        source.len() as int
    } else if extent_at(source, from) is Some {
        from
    } else {
        token_start(source, from + 1)
    }
}

/// How many line breaks stand before the character `at`.
pub open spec fn line_breaks(source: Seq<char>, at: int) -> int
    decreases at,
{
    if at <= 0 || at > source.len() {
        0
    } else if source[at - 1] == '\n' {
        line_breaks(source, at - 1) + 1
    } else {
        line_breaks(source, at - 1)
    }
}

/// Where the line of the character `at` begins: just after the last line
/// break before `at`, or at the start of the text.
pub open spec fn line_start(source: Seq<char>, at: int) -> int
    decreases at,
{
    if at <= 0 || at > source.len() {
        0
    } else if source[at - 1] == '\n' {
        at
    } else {
        line_start(source, at - 1)
    }
}

/// The line and column of the character `at`.
pub open spec fn location_of(source: Seq<char>, at: int) -> Location {
    Location {
        line: (line_breaks(source, at) + 1) as usize,
        column: (at - line_start(source, at) + 1) as usize,
    }
}

/// The token of the given extent.
pub open spec fn token_of(source: Seq<char>, at: int, extent: Extent) -> Token {
    Token {
        symbol: extent.symbol,
        value: source.subrange(extent.from, extent.to),
        location: location_of(source, at),
    }
}

/// The tokens of `source` from the character `from` on.
pub open spec fn tokens_from(source: Seq<char>, from: int) -> Seq<Token>
    decreases source.len() - from,
    via tokens_from_terminates
{
    let at = token_start(source, from);
    if at < source.len() {
        let extent = extent_at(source, at)->0;
        seq![token_of(source, at, extent)] + tokens_from(source, extent.end)
    } else {
        Seq::empty()
    }
}

/// The tokens of `source`.
pub open spec fn tokenize(source: Seq<char>) -> Seq<Token> {
    tokens_from(source, 0)
}

#[via_fn]
proof fn tokens_from_terminates(source: Seq<char>, from: int) {
    lemma_token_start(source, from);
    let at = token_start(source, from);
    if at < source.len() {
        lemma_extent(source, at);
    }
}

/// A run ends within the text, holds only characters of its kind, and stops
/// where the next character is not of its kind.
pub proof fn lemma_run_end(source: Seq<char>, from: int, run: Run)
    requires
        0 <= from <= source.len(),
    ensures
        from <= run_end(source, from, run) <= source.len(),
        forall|i: int| from <= i < run_end(source, from, run) ==> continues(run, source[i]),
        run_end(source, from, run) < source.len() ==> !continues(
            run,
            source[run_end(source, from, run)],
        ),
    decreases source.len() - from,
{
    if from < source.len() && continues(run, source[from]) {
        lemma_run_end(source, from + 1, run);
    }
}

/// The next token begins at or after `from`, within the text, and nothing
/// between the two begins a token.
pub proof fn lemma_token_start(source: Seq<char>, from: int)
    ensures
        token_start(source, from) <= source.len(),
        0 <= from <= source.len() ==> from <= token_start(source, from),
        token_start(source, from) < source.len() ==> 0 <= from && extent_at(
            source,
            token_start(source, from),
        ) is Some,
        forall|i: int| 0 <= from <= i < token_start(source, from) ==> extent_at(source, i) is None,
    decreases source.len() - from,
{
    if 0 <= from < source.len() && extent_at(source, from) is None {
        lemma_token_start(source, from + 1);
    }
}

/// A token takes up at least one character and ends within the text; its
/// text lies inside it.
pub proof fn lemma_extent(source: Seq<char>, at: int)
    requires
        0 <= at < source.len(),
        extent_at(source, at) is Some,
    ensures
        at <= extent_at(source, at)->0.from <= extent_at(source, at)->0.to <= extent_at(
            source,
            at,
        )->0.end <= source.len(),
        at < extent_at(source, at)->0.end,
{
    lemma_run_end(source, at, Run::Word);
    lemma_run_end(source, at, Run::Numeral);
    lemma_run_end(source, at + 1, Run::Quoted);
}

/// Line breaks and line starts never run ahead of the characters read.
pub proof fn lemma_location(source: Seq<char>, at: int)
    requires
        0 <= at <= source.len(),
    ensures
        0 <= line_breaks(source, at) <= at,
        0 <= line_start(source, at) <= at,
    decreases at,
{
    if at > 0 {
        lemma_location(source, at - 1);
    }
}

/// A reader over source text that remembers, besides its place, how many
/// lines it has passed and where the current line began.
pub struct CharCursor<'a> {
    source: &'a [char],
    index: usize,
    breaks: usize,
    line_start: usize,
}

impl<'a> CharCursor<'a> {
    /// The text that is read.
    pub closed spec fn source(&self) -> Seq<char> {
        self.source@
    }

    /// How many characters have been read.
    pub closed spec fn index(&self) -> int {
        self.index as int
    }

    /// The reader stands within its text, and its line count and line start
    /// are those of the place where it stands.
    pub closed spec fn wf(&self) -> bool {
        &&& self.index <= self.source@.len()
        &&& self.breaks == line_breaks(self.source@, self.index as int)
        &&& self.line_start == line_start(self.source@, self.index as int)
    }

    /// A reader at the start of `source`.
    pub fn new(source: &'a [char]) -> (chars: Self)
        ensures
            chars.wf(),
            chars.source() == source@,
            chars.index() == 0,
    {
        CharCursor { source, index: 0, breaks: 0, line_start: 0 }
    }

    /// How many characters have been read.
    pub fn position(&self) -> (index: usize)
        ensures
            index == self.index(),
    {
        self.index
    }

    /// The line and column of the next character.
    fn location(&self) -> (location: Location)
        requires
            self.wf(),
            self.index() < self.source().len(),
        ensures
            location == location_of(self.source(), self.index()),
    {
        proof {
            lemma_location(self.source@, self.index as int);
            assert(self.source.len() == self.source@.len());
        }
        Location { line: self.breaks + 1, column: self.index - self.line_start + 1 }
    }

    /// Reads one character.
    fn advance(&mut self)
        requires
            old(self).wf(),
            old(self).index() < old(self).source().len(),
        ensures
            final(self).wf(),
            final(self).source == old(self).source,
            final(self).index == old(self).index + 1,
    {
        proof {
            lemma_location(self.source@, self.index as int);
            assert(self.source.len() == self.source@.len());
        }
        if self.source[self.index] == '\n' {
            self.breaks = self.breaks + 1;
            self.line_start = self.index + 1;
        }
        self.index = self.index + 1;
    }

    /// Reads to the end of the run of the given kind that begins here.
    fn skip_run(&mut self, run: Run)
        requires
            old(self).wf(),
        ensures
            final(self).wf(),
            final(self).source == old(self).source,
            final(self).index == run_end(old(self).source@, old(self).index as int, run),
    {
        while self.index < self.source.len() && in_run(run, self.source[self.index])
            invariant
                self.wf(),
                self.source == old(self).source,
                run_end(self.source@, self.index as int, run) == run_end(
                    old(self).source@,
                    old(self).index as int,
                    run,
                ),
            decreases self.source.len() - self.index,
        {
            self.advance();
        }
    }
}

/// Whether `c` may stand in a run of the given kind.
fn in_run(run: Run, c: char) -> (r: bool)
    ensures
        r == continues(run, c),
{
    match run {
        Run::Word => is_identifier_part(c),
        Run::Numeral => is_digit(c) || c == '.',
        Run::Quoted => c != '"',
    }
}

/// The kind of the token that is the one character `c`.
fn punctuation_of(c: char) -> (symbol: Option<LexSymbol>)
    ensures
        symbol == punctuation(c),
{
    if c == '(' {
        Some(LexSymbol::GenericOpeningBracket)
    } else if c == ')' {
        Some(LexSymbol::GenericClosingBracket)
    } else if c == '{' {
        Some(LexSymbol::BlockOpeningBracket)
    } else if c == '}' {
        Some(LexSymbol::BlockClosingBracket)
    } else if is_math_symbol(c) {
        Some(LexSymbol::OperationalSymbol)
    } else if c == ';' {
        Some(LexSymbol::EndOfStatement)
    } else if c == '.' {
        Some(LexSymbol::Dot)
    } else if c == ',' {
        Some(LexSymbol::Comma)
    } else if c == ':' {
        Some(LexSymbol::DoubleDot)
    } else {
        None
    }
}

/// A `String` of the characters of `chars`, in their order: what
/// `String::from_iter` makes of a slice of characters.
#[verifier::external_body]
fn collect_text(chars: &[char]) -> (text: String)
    ensures
        text@ == chars@,
{
    String::from_iter(chars)
}

/// Reads the next token, passing over whatever stands before it. Returns
/// `None`, with the whole text read, if no token is left.
pub fn lex_token(chars: &mut CharCursor) -> (token: Option<Lexeme>)
    requires
        old(chars).wf(),
    ensures
        final(chars).wf(),
        final(chars).source() == old(chars).source(),
        ({
            let source = old(chars).source();
            let at = token_start(source, old(chars).index());
            if at < source.len() {
                &&& token matches Some(lexeme)
                &&& lexeme@ == token_of(source, at, extent_at(source, at)->0)
                &&& final(chars).index() == extent_at(source, at)->0.end
            } else {
                &&& token is None
                &&& final(chars).index() == source.len()
            }
        }),
{
    let source = chars.source;
    while chars.index < source.len()
        invariant
            chars.wf(),
            chars.source == source,
            source == old(chars).source,
            token_start(source@, chars.index as int) == token_start(
                source@,
                old(chars).index as int,
            ),
        decreases source.len() - chars.index,
    {
        let start = chars.index;
        let c = source[start];
        let location = chars.location();
        proof {
            lemma_run_end(source@, start as int, Run::Word);
            lemma_run_end(source@, start as int, Run::Numeral);
            lemma_run_end(source@, start + 1, Run::Quoted);
        }
        if is_identifier_start(c) {
            chars.skip_run(Run::Word);
            let text = slice_subrange(source, start, chars.index);
            let symbol = if find_keyword(text).is_some() {
                LexSymbol::Keyword
            } else {
                LexSymbol::Identifier
            };
            return Some(Lexeme { symbol, value: collect_text(text), location });
        } else if is_digit(c) {
            chars.skip_run(Run::Numeral);
            let text = slice_subrange(source, start, chars.index);
            return Some(Lexeme { symbol: LexSymbol::Integer, value: collect_text(text), location });
        } else if c == '"' {
            chars.advance();
            chars.skip_run(Run::Quoted);
            let text = slice_subrange(source, start + 1, chars.index);
            if chars.index < source.len() {
                chars.advance();
            }
            return Some(Lexeme { symbol: LexSymbol::String, value: collect_text(text), location });
        } else if is_operator_prefix(c) {
            chars.advance();
            if chars.index < source.len() && source[chars.index] == '=' {
                chars.advance();
                let text = slice_subrange(source, start, chars.index);
                return Some(
                    Lexeme {
                        symbol: LexSymbol::OperationalSymbol,
                        value: collect_text(text),
                        location,
                    },
                );
            } else if c != '!' {
                let symbol = if c == '=' {
                    LexSymbol::EqualSign
                } else {
                    LexSymbol::OperationalSymbol
                };
                let text = slice_subrange(source, start, chars.index);
                return Some(Lexeme { symbol, value: collect_text(text), location });
            }
        } else {
            chars.advance();
            match punctuation_of(c) {
                Some(symbol) => {
                    let text = slice_subrange(source, start, chars.index);
                    return Some(Lexeme { symbol, value: collect_text(text), location });
                },
                None => {},
            }
        }
    }
    None
}

/// The characters of `text`, in their order.
pub fn to_chars(text: &str) -> (chars: Vec<char>)
    ensures
        chars@ == text@,
{
    let mut chars: Vec<char> = Vec::new();
    for c in it: text.chars()
        invariant
            it.seq() == text@,
            chars@ == it.seq().take(it.index() as int),
    {
        chars.push(c);
    }
    chars
}

/// The tokens of a text that is held as characters.
pub fn lex_chars(source: &[char]) -> (tokens: Vec<Lexeme>)
    ensures
        tokens.deep_view() == tokenize(source@),
{
    let mut chars = CharCursor::new(source);
    let mut tokens: Vec<Lexeme> = Vec::new();
    loop
        invariant
            chars.wf(),
            chars.source() == source@,
            tokenize(source@) == tokens.deep_view() + tokens_from(source@, chars.index()),
        ensures
            tokens.deep_view() == tokenize(source@),
        decreases source@.len() - chars.index(),
    {
        proof {
            lemma_token_start(source@, chars.index());
            let at = token_start(source@, chars.index());
            if at < source@.len() {
                lemma_extent(source@, at);
            }
        }
        let ghost before = tokens.deep_view();
        match lex_token(&mut chars) {
            Some(token) => {
                tokens.push(token);
                assert(tokens.deep_view() == before + seq![token@]);
            },
            None => {
                assert(tokens.deep_view() + Seq::<Token>::empty() == tokens.deep_view());
                break ;
            },
        }
    }
    tokens
}

/// The tokens of `content`, in the order of the text.
///
/// Blanks and characters that begin no token are left out; a string that is
/// not closed runs to the end of the text.
pub fn lexer(content: &str) -> (tokens: Vec<Lexeme>)
    ensures
        tokens.deep_view() == tokenize(content@),
{
    let source = to_chars(content);
    lex_chars(source.as_slice())
}

} // verus!
