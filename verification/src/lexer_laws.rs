//! What holds of the tokenizer whatever the text: how its tokens depend on
//! the text around them, what becomes of a character that it passes over,
//! and what comes back when tokens are written out and read again.
//!
//! The laws speak of tokens without their places, since a change to the text
//! moves what comes after it.

use crate::compiler_settings::{
    digit, identifier_part, identifier_start, keyword, math_symbol, operator_prefix,
};
use crate::lexer::{
    continues, extent_at, lemma_extent, lemma_run_end, lemma_token_start, punctuation, run_end,
    token_of, token_start, tokenize, tokens_from, Extent, LexSymbol, Run, Token,
};
use vstd::prelude::*;

verus! {

/// The kinds and texts of tokens, without their places.
pub open spec fn unplaced(tokens: Seq<Token>) -> Seq<(LexSymbol, Seq<char>)> {
    tokens.map_values(|token: Token| (token.symbol, token.value))
}

/// The kinds of tokens.
pub open spec fn kinds(tokens: Seq<Token>) -> Seq<LexSymbol> {
    tokens.map_values(|token: Token| token.symbol)
}

/// No token begins with `c`, whatever follows it. Blanks are such
/// characters, and so is every character that the language has no use for.
pub open spec fn passed_over(c: char) -> bool {
    &&& !identifier_start(c)
    &&& !digit(c)
    &&& c != '"'
    &&& !operator_prefix(c)
    &&& punctuation(c) is None
}

/// The place `at` lies between the tokens that are read from `from` on: no
/// token reaches across it, and a string that ends there has been closed.
pub open spec fn between_tokens(source: Seq<char>, from: int, at: int) -> bool
    decreases source.len() - from,
    via between_tokens_terminates
{
    let start = token_start(source, from);
    if at <= start {
        true
    } else if start >= source.len() {
        false
    } else {
        let extent = extent_at(source, start)->0;
        &&& extent.end <= at
        &&& extent.symbol == LexSymbol::String ==> extent.to < extent.end
        &&& between_tokens(source, extent.end, at)
    }
}

#[via_fn]
proof fn between_tokens_terminates(source: Seq<char>, from: int, at: int) {
    lemma_token_start(source, from);
    let start = token_start(source, from);
    if start < source.len() {
        lemma_extent(source, start);
    }
}

/// The text that writes the tokens out: the text of each, in their order,
/// with one blank after it.
pub open spec fn spaced(tokens: Seq<Token>) -> Seq<char>
    decreases tokens.len(),
{
    if tokens.len() == 0 {
        Seq::empty()
    } else {
        tokens[0].value + seq![' '] + spaced(tokens.skip(1))
    }
}

/// The text of a word: a letter or underscore, then letters, digits and
/// underscores.
pub open spec fn word(text: Seq<char>) -> bool {
    &&& text.len() > 0
    &&& identifier_start(text[0])
    &&& forall|i: int| 0 <= i < text.len() ==> identifier_part(#[trigger] text[i])
}

/// The token has a text that the tokenizer reads as a token of its kind. No
/// string has: its text lacks the quotes.
pub open spec fn well_spelled(token: Token) -> bool {
    let text = token.value;
    match token.symbol {
        LexSymbol::Keyword => word(text) && keyword(text) is Some,
        LexSymbol::Identifier => word(text) && keyword(text) is None,
        LexSymbol::Integer => {
            &&& text.len() > 0
            &&& digit(text[0])
            &&& forall|i: int| 0 <= i < text.len() ==> continues(Run::Numeral, #[trigger] text[i])
        },
        LexSymbol::OperationalSymbol => {
            ||| text.len() == 1 && (math_symbol(text[0]) || text[0] == '<' || text[0] == '>')
            ||| text.len() == 2 && operator_prefix(text[0]) && text[1] == '='
        },
        LexSymbol::EqualSign => text.len() == 1 && text[0] == '=',
        LexSymbol::String => false,
        LexSymbol::EndOfStream => false,
        _ => text.len() == 1 && !math_symbol(text[0]) && punctuation(text[0]) == Some(
            token.symbol,
        ),
    }
}

/// A run ends at `end` if it holds up to there and cannot go on from there.
pub proof fn lemma_run_end_is(source: Seq<char>, from: int, end: int, run: Run)
    requires
        0 <= from <= end <= source.len(),
        forall|i: int| from <= i < end ==> continues(run, source[i]),
        end < source.len() ==> !continues(run, source[end]),
    ensures
        run_end(source, from, run) == end,
    decreases end - from,
{
    if from < end {
        lemma_run_end_is(source, from + 1, end, run);
    }
}

/// Where no token begins between two places, the next token is the same
/// from both.
pub proof fn lemma_token_start_skips(source: Seq<char>, from: int, to: int)
    requires
        0 <= from <= to <= source.len(),
        forall|i: int| from <= i < to ==> extent_at(source, i) is None,
    ensures
        token_start(source, from) == token_start(source, to),
        tokens_from(source, from) == tokens_from(source, to),
    decreases to - from,
{
    if from < to {
        lemma_token_start_skips(source, from + 1, to);
    }
}

/// A run in a text that follows another text is the run in the text alone,
/// moved.
pub proof fn lemma_run_end_moved(before: Seq<char>, source: Seq<char>, from: int, run: Run)
    requires
        0 <= from <= source.len(),
    ensures
        run_end(before + source, before.len() + from, run) == before.len() + run_end(
            source,
            from,
            run,
        ),
    decreases source.len() - from,
{
    let whole = before + source;
    if from < source.len() {
        assert(whole[before.len() + from] == source[from]);
        if continues(run, source[from]) {
            lemma_run_end_moved(before, source, from + 1, run);
        }
    }
}

/// The token that begins at a place in a text that follows another text is
/// the token of the text alone, moved.
pub proof fn lemma_extent_moved(before: Seq<char>, source: Seq<char>, at: int)
    requires
        0 <= at < source.len(),
    ensures
        match extent_at(source, at) {
            None => extent_at(before + source, before.len() + at) is None,
            Some(extent) => {
                &&& extent_at(before + source, before.len() + at) == Some(
                    Extent {
                        symbol: extent.symbol,
                        from: before.len() + extent.from,
                        to: before.len() + extent.to,
                        end: before.len() + extent.end,
                    },
                )
                &&& (before + source).subrange(before.len() + extent.from, before.len() + extent.to)
                    == source.subrange(extent.from, extent.to)
            },
        },
{
    let whole = before + source;
    let n = before.len() as int;
    assert(whole[n + at] == source[at]);
    if at + 1 < source.len() {
        assert(whole[n + at + 1] == source[at + 1]);
    }
    lemma_run_end_moved(before, source, at, Run::Word);
    lemma_run_end_moved(before, source, at, Run::Numeral);
    lemma_run_end_moved(before, source, at + 1, Run::Quoted);
    lemma_run_end(source, at, Run::Word);
    lemma_run_end(source, at, Run::Numeral);
    lemma_run_end(source, at + 1, Run::Quoted);
    let end = run_end(source, at, Run::Word);
    assert(whole.subrange(n + at, n + end) == source.subrange(at, end));
    if let Some(extent) = extent_at(source, at) {
        assert(whole.subrange(n + extent.from, n + extent.to) == source.subrange(
            extent.from,
            extent.to,
        ));
    }
}

/// The next token in a text that follows another text begins where it
/// begins in the text alone, moved.
pub proof fn lemma_token_start_moved(before: Seq<char>, source: Seq<char>, from: int)
    requires
        0 <= from <= source.len(),
    ensures
        token_start(before + source, before.len() + from) == before.len() + token_start(
            source,
            from,
        ),
    decreases source.len() - from,
{
    if from < source.len() {
        lemma_extent_moved(before, source, from);
        if extent_at(source, from) is None {
            lemma_token_start_moved(before, source, from + 1);
        }
    }
}

/// The kinds and texts of the tokens of a text do not depend on what stands
/// before the place where reading begins.
pub proof fn lemma_tokens_moved(before: Seq<char>, source: Seq<char>, from: int)
    requires
        0 <= from <= source.len(),
    ensures
        unplaced(tokens_from(before + source, before.len() + from)) == unplaced(
            tokens_from(source, from),
        ),
    decreases source.len() - from,
{
    let whole = before + source;
    let n = before.len() as int;
    lemma_token_start_moved(before, source, from);
    lemma_token_start(source, from);
    let at = token_start(source, from);
    if at < source.len() {
        lemma_extent_moved(before, source, at);
        lemma_extent(source, at);
        let extent = extent_at(source, at)->0;
        let moved = extent_at(whole, n + at)->0;
        lemma_tokens_moved(before, source, extent.end);
        let head = token_of(source, at, extent);
        let moved_head = token_of(whole, n + at, moved);
        assert(unplaced(seq![moved_head] + tokens_from(whole, moved.end)) == seq![
            (head.symbol, head.value),
        ] + unplaced(tokens_from(whole, moved.end)));
        assert(unplaced(seq![head] + tokens_from(source, extent.end)) == seq![
            (head.symbol, head.value),
        ] + unplaced(tokens_from(source, extent.end)));
    } else {
        assert(unplaced(tokens_from(whole, n + from)) == Seq::<(LexSymbol, Seq<char>)>::empty());
        assert(unplaced(tokens_from(source, from)) == Seq::<(LexSymbol, Seq<char>)>::empty());
    }
}

/// A place where no token begins stays one when a character that is passed
/// over is put in somewhere after it.
proof fn lemma_still_nothing(before: Seq<char>, c: char, after: Seq<char>, at: int)
    requires
        passed_over(c),
        0 <= at < before.len(),
        extent_at(before + after, at) is None,
    ensures
        extent_at(before + seq![c] + after, at) is None,
{
    let short = before + after;
    let long = before + seq![c] + after;
    assert(short[at] == long[at]);
    if at + 1 < before.len() {
        assert(short[at + 1] == long[at + 1]);
    } else {
        assert(long[at + 1] == c);
    }
}

/// A token that ends before a place, closed if it is a string, stays the
/// same token when a character that is passed over is put in at that place.
proof fn lemma_still_token(before: Seq<char>, c: char, after: Seq<char>, at: int)
    requires
        passed_over(c),
        0 <= at < before.len(),
        extent_at(before + after, at) is Some,
        extent_at(before + after, at)->0.end <= before.len(),
        extent_at(before + after, at)->0.symbol == LexSymbol::String ==> extent_at(
            before + after,
            at,
        )->0.to < extent_at(before + after, at)->0.end,
    ensures
        extent_at(before + seq![c] + after, at) == extent_at(before + after, at),
        (before + seq![c] + after).subrange(
            extent_at(before + after, at)->0.from,
            extent_at(before + after, at)->0.to,
        ) == (before + after).subrange(
            extent_at(before + after, at)->0.from,
            extent_at(before + after, at)->0.to,
        ),
{
    let short = before + after;
    let long = before + seq![c] + after;
    let n = before.len() as int;
    let extent = extent_at(short, at)->0;
    assert(forall|i: int| 0 <= i < n ==> short[i] == long[i]);
    assert(long[n] == c);
    lemma_run_end(short, at, Run::Word);
    lemma_run_end(short, at, Run::Numeral);
    lemma_run_end(short, at + 1, Run::Quoted);
    let first = short[at];
    if identifier_start(first) {
        lemma_run_end_is(long, at, extent.end, Run::Word);
    } else if digit(first) {
        lemma_run_end_is(long, at, extent.end, Run::Numeral);
    } else if first == '"' {
        lemma_run_end_is(long, at + 1, extent.to, Run::Quoted);
    }
    assert(long.subrange(extent.from, extent.to) == short.subrange(extent.from, extent.to));
}

/// Up to a place between tokens, a character that is passed over and put in
/// at that place changes no token.
proof fn lemma_dropped_from(before: Seq<char>, c: char, after: Seq<char>, from: int)
    requires
        passed_over(c),
        0 <= from <= before.len(),
        between_tokens(before + after, from, before.len() as int),
    ensures
        unplaced(tokens_from(before + seq![c] + after, from)) == unplaced(
            tokens_from(before + after, from),
        ),
    decreases before.len() - from,
{
    let short = before + after;
    let long = before + seq![c] + after;
    let n = before.len() as int;
    lemma_token_start(short, from);
    let start = token_start(short, from);
    assert forall|i: int| from <= i < start && i < n implies extent_at(long, i) is None by {
        lemma_still_nothing(before, c, after, i);
    }
    if n <= start {
        lemma_token_start_skips(short, from, n);
        lemma_token_start_skips(long, from, n);
        assert(long[n] == c);
        lemma_token_start_skips(long, n, n + 1);
        lemma_tokens_moved(before + seq![c], after, 0);
        lemma_tokens_moved(before, after, 0);
    } else {
        let extent = extent_at(short, start)->0;
        lemma_extent(short, start);
        lemma_still_token(before, c, after, start);
        lemma_token_start_skips(long, from, start);
        lemma_dropped_from(before, c, after, extent.end);
        let head = token_of(short, start, extent);
        let long_head = token_of(long, start, extent);
        assert(unplaced(seq![long_head] + tokens_from(long, extent.end)) == seq![
            (head.symbol, head.value),
        ] + unplaced(tokens_from(long, extent.end)));
        assert(unplaced(seq![head] + tokens_from(short, extent.end)) == seq![
            (head.symbol, head.value),
        ] + unplaced(tokens_from(short, extent.end)));
    }
}

/// A character that the tokenizer passes over, standing between tokens,
/// leaves no trace: the text has the tokens, by kind and text, that it has
/// without the character.
///
/// "Between tokens" is said of the text without the character. Inside a
/// token it does not hold: `ab` is one word, and with a character put in
/// after the `a` the text has two.
pub proof fn lemma_passed_over_leaves_no_trace(before: Seq<char>, c: char, after: Seq<char>)
    requires
        passed_over(c),
        between_tokens(before + after, 0, before.len() as int),
    ensures
        unplaced(tokenize(before + seq![c] + after)) == unplaced(tokenize(before + after)),
{
    lemma_dropped_from(before, c, after, 0);
}

/// Every token that the tokenizer makes is well spelled, unless it is a
/// string.
pub proof fn lemma_tokens_well_spelled(source: Seq<char>, from: int)
    requires
        0 <= from <= source.len(),
    ensures
        forall|i: int|
            0 <= i < tokens_from(source, from).len() ==> #[trigger] tokens_from(
                source,
                from,
            )[i].symbol == LexSymbol::String || well_spelled(tokens_from(source, from)[i]),
    decreases source.len() - from,
{
    lemma_token_start(source, from);
    let at = token_start(source, from);
    if at < source.len() {
        lemma_extent(source, at);
        let extent = extent_at(source, at)->0;
        let head = token_of(source, at, extent);
        lemma_run_end(source, at, Run::Word);
        lemma_run_end(source, at, Run::Numeral);
        assert(head.symbol == LexSymbol::String || well_spelled(head)) by {
            assert(forall|i: int|
                0 <= i < head.value.len() ==> head.value[i] == source[extent.from + i]);
        }
        lemma_tokens_well_spelled(source, extent.end);
        let rest = tokens_from(source, extent.end);
        assert forall|i: int| 0 <= i < tokens_from(source, from).len() implies #[trigger] tokens_from(
            source,
            from,
        )[i].symbol == LexSymbol::String || well_spelled(tokens_from(source, from)[i]) by {
            if i > 0 {
                assert(tokens_from(source, from)[i] == rest[i - 1]);
            }
        }
    }
}

/// A well-spelled token, written out with a blank after it, is read back as
/// it was, whatever follows the blank.
proof fn lemma_read_back(token: Token, rest: Seq<char>)
    requires
        well_spelled(token),
    ensures
        extent_at(token.value + seq![' '] + rest, 0) == Some(
            Extent {
                symbol: token.symbol,
                from: 0,
                to: token.value.len() as int,
                end: token.value.len() as int,
            },
        ),
        extent_at(token.value + seq![' '] + rest, token.value.len() as int) is None,
        (token.value + seq![' '] + rest).subrange(0, token.value.len() as int) == token.value,
{
    let text = token.value;
    let n = text.len() as int;
    let source = text + seq![' '] + rest;
    assert(forall|i: int| 0 <= i < n ==> source[i] == text[i]);
    assert(source[n] == ' ');
    assert(source.subrange(0, n) == text);
    match token.symbol {
        LexSymbol::Keyword | LexSymbol::Identifier => {
            lemma_run_end_is(source, 0, n, Run::Word);
        },
        LexSymbol::Integer => {
            lemma_run_end_is(source, 0, n, Run::Numeral);
        },
        _ => {},
    }
}

/// Well-spelled tokens, written out with a blank after each and read again,
/// come back with their kinds and texts.
pub proof fn lemma_spaced_reads_back(tokens: Seq<Token>)
    requires
        forall|i: int| 0 <= i < tokens.len() ==> well_spelled(#[trigger] tokens[i]),
    ensures
        unplaced(tokenize(spaced(tokens))) == unplaced(tokens),
    decreases tokens.len(),
{
    if tokens.len() == 0 {
        assert(unplaced(tokenize(spaced(tokens))) == Seq::<(LexSymbol, Seq<char>)>::empty());
        assert(unplaced(tokens) == Seq::<(LexSymbol, Seq<char>)>::empty());
    } else {
        let head = tokens[0];
        let rest = tokens.skip(1);
        let text = head.value;
        let n = text.len() as int;
        let source = spaced(tokens);
        assert(source == text + seq![' '] + spaced(rest));
        assert forall|i: int| 0 <= i < rest.len() implies well_spelled(#[trigger] rest[i]) by {
            assert(rest[i] == tokens[i + 1]);
        }
        lemma_read_back(head, spaced(rest));
        let extent = extent_at(source, 0)->0;
        lemma_token_start_skips(source, n, n + 1);
        lemma_tokens_moved(text + seq![' '], spaced(rest), 0);
        lemma_spaced_reads_back(rest);
        let read = token_of(source, 0, extent);
        assert(tokenize(source) == seq![read] + tokens_from(source, n));
        assert(unplaced(seq![read] + tokens_from(source, n)) == seq![(head.symbol, text)]
            + unplaced(tokens_from(source, n)));
        assert(unplaced(tokens) == seq![(head.symbol, text)] + unplaced(rest));
    }
}

/// Writing the tokens of a text out, each with a blank after it, and reading
/// that again gives tokens of the same kinds, and of the same texts, if the
/// text has no string literal.
///
/// With a string literal it does not hold: the text of `"a b"` is `a b`,
/// which is read back as two words.
pub proof fn lemma_retokenizing_keeps_kinds(source: Seq<char>)
    requires
        forall|i: int|
            0 <= i < tokenize(source).len() ==> (#[trigger] tokenize(source)[i]).symbol
                != LexSymbol::String,
    ensures
        kinds(tokenize(spaced(tokenize(source)))) == kinds(tokenize(source)),
        unplaced(tokenize(spaced(tokenize(source)))) == unplaced(tokenize(source)),
{
    let tokens = tokenize(source);
    lemma_tokens_well_spelled(source, 0);
    lemma_spaced_reads_back(tokens);
    let again = tokenize(spaced(tokens));
    assert(kinds(again) == kinds(tokens)) by {
        assert(unplaced(again).len() == unplaced(tokens).len());
        assert forall|i: int| 0 <= i < again.len() implies again[i].symbol
            == tokens[i].symbol by {
            assert(unplaced(again)[i] == unplaced(tokens)[i]);
        }
    }
}

} // verus!
