//! The grammar of the language, as functions from a sequence of tokens and a
//! position in it to what stands there.
//!
//! Each function gives, for the construct that begins at `position`, either
//! its value together with the number of tokens that it spans, or the error
//! of the first token that does not fit. Expressions are defined level by
//! level: an expression of some precedence is a chain of expressions of the
//! next precedence, joined from the left by the operators of that precedence.

use crate::ast::{operator, ExpressionView, Operator, StatementView, HIGHEST_PRECEDENCE};
use crate::compiler_settings::{digit, keyword, Keyword};
use crate::lexer::{LexSymbol, Location, Token};
use crate::parser::SyntaxError;
use vstd::prelude::*;

verus! {

/// A value read from the tokens with the number of tokens that it spans, or
/// the error that stopped the reading.
pub type Parsed<T> = Result<(T, nat), SyntaxError>;

/// The same reading after `n` tokens that were read before it.
pub open spec fn after<T>(n: nat, parsed: Parsed<T>) -> Parsed<T> {
    match parsed {
        Err(error) => Err(error),
        Ok((value, k)) => Ok((value, n + k)),
    }
}

/// The kind of the token at `position`; `EndOfStream` where there is none.
pub open spec fn symbol_at(tokens: Seq<Token>, position: int) -> LexSymbol {
    if 0 <= position < tokens.len() {
        tokens[position].symbol
    } else {
        LexSymbol::EndOfStream
    }
}

/// The place of the token at `position`. Where there is none, the place of
/// the last token, and line 1, column 1 if there is no token at all.
pub open spec fn location_at(tokens: Seq<Token>, position: int) -> Location {
    if 0 <= position < tokens.len() {
        tokens[position].location
    } else if tokens.len() > 0 {
        tokens.last().location
    } else {
        Location { line: 1, column: 1 }
    }
}

/// The error of finding the token at `position` where `expected` should be.
pub open spec fn mismatch(expected: LexSymbol, tokens: Seq<Token>, position: int) -> SyntaxError {
    SyntaxError {
        expected,
        found: symbol_at(tokens, position),
        location: location_at(tokens, position),
    }
}

/// The text of the token at `position` if it is of the kind `expected`, and
/// the mismatch otherwise. At the end of the tokens nothing is found,
/// whatever is expected.
pub open spec fn expected_at(tokens: Seq<Token>, position: int, expected: LexSymbol) -> Result<
    Seq<char>,
    SyntaxError,
> {
    if 0 <= position < tokens.len() && tokens[position].symbol == expected {
        Ok(tokens[position].value)
    } else {
        Err(mismatch(expected, tokens, position))
    }
}

/// How many tokens stand at `position` and after it.
pub open spec fn remaining(tokens: Seq<Token>, position: int) -> nat {
    if position < tokens.len() {
        (tokens.len() - position) as nat
    } else {
        0
    }
}

/// The number that the decimal digits of `text` write.
pub open spec fn decimal(text: Seq<char>) -> int
    decreases text.len(),
{
    if text.len() == 0 {
        0
    } else {
        decimal(text.drop_last()) * 10 + (text.last() as int - '0' as int)
    }
}

/// The value of an integer literal: `text` must be one or more decimal
/// digits and nothing else, and write a number that an `i64` holds.
pub open spec fn integer_value(text: Seq<char>) -> Option<i64> {
    if text.len() > 0 && (forall|i: int| 0 <= i < text.len() ==> digit(#[trigger] text[i]))
        && decimal(text) <= i64::MAX {
        Some(decimal(text) as i64)
    } else {
        None
    }
}

/// The operator that the token at `position` writes: `None` if that token is
/// no operator token, and an error if it is one that the table of operators
/// does not hold.
pub open spec fn operator_at(tokens: Seq<Token>, position: int) -> Result<
    Option<Operator>,
    SyntaxError,
> {
    if symbol_at(tokens, position) == LexSymbol::OperationalSymbol {
        match operator(tokens[position].value) {
            Some(found) => Ok(Some(found)),
            None => Err(mismatch(LexSymbol::OperationalSymbol, tokens, position)),
        }
    } else {
        Ok(None)
    }
}

/// The term at `position`: an integer or string literal, a variable, or a
/// call, which is an identifier directly followed by a round bracket and
/// arguments.
pub open spec fn term(tokens: Seq<Token>, position: int) -> Parsed<ExpressionView>
    decreases remaining(tokens, position), 0nat,
{
    match symbol_at(tokens, position) {
        LexSymbol::Integer => match integer_value(tokens[position].value) {
            Some(n) => Ok((ExpressionView::Number(n as int), 1)),
            None => Err(mismatch(LexSymbol::Integer, tokens, position)),
        },
        LexSymbol::String => Ok((ExpressionView::String(tokens[position].value), 1)),
        LexSymbol::Identifier => if symbol_at(tokens, position + 1)
            == LexSymbol::GenericOpeningBracket {
            match arguments(tokens, position + 2) {
                Err(error) => Err(error),
                Ok((args, n)) => Ok(
                    (ExpressionView::FunctionCall { target: tokens[position].value, args }, 2 + n),
                ),
            }
        } else {
            Ok((ExpressionView::Variable(tokens[position].value), 1))
        },
        _ => Err(mismatch(LexSymbol::Identifier, tokens, position)),
    }
}

/// The arguments that follow an opening round bracket, through the closing
/// one: none if the bracket closes at once, else one or more.
pub open spec fn arguments(tokens: Seq<Token>, position: int) -> Parsed<Seq<ExpressionView>>
    decreases remaining(tokens, position), 8nat,
{
    if symbol_at(tokens, position) == LexSymbol::GenericClosingBracket {
        Ok((Seq::empty(), 1))
    } else {
        argument_list(tokens, position)
    }
}

/// One or more expressions with commas between them, through the closing
/// round bracket.
pub open spec fn argument_list(tokens: Seq<Token>, position: int) -> Parsed<Seq<ExpressionView>>
    decreases remaining(tokens, position), 7nat,
{
    match expression(tokens, position, 0) {
        Err(error) => Err(error),
        Ok((first, n)) => if symbol_at(tokens, position + n) == LexSymbol::Comma {
            match argument_list(tokens, position + n + 1) {
                Err(error) => Err(error),
                Ok((rest, k)) => Ok((seq![first] + rest, n + 1 + k)),
            }
        } else if symbol_at(tokens, position + n) == LexSymbol::GenericClosingBracket {
            Ok((seq![first], n + 1))
        } else {
            Err(mismatch(LexSymbol::GenericClosingBracket, tokens, position + n))
        },
    }
}

/// The expression at `position` that is made with operators of precedence
/// `min_precedence` and above: a term, joined with the operations that
/// follow it.
pub open spec fn expression(tokens: Seq<Token>, position: int, min_precedence: nat) -> Parsed<
    ExpressionView,
>
    decreases remaining(tokens, position), 6nat,
{
    match term(tokens, position) {
        Err(error) => Err(error),
        Ok((first, n)) => after(n, operations(tokens, position + n, first, min_precedence)),
    }
}

/// `left` joined with the operations of precedence `min_precedence` and
/// above that follow at `position`: first with those of higher precedence,
/// then with the chain of those of precedence `min_precedence` itself.
///
/// Above the highest precedence nothing is joined. Even so the token at
/// `position` is looked at: an operator token must be one that the table of
/// operators holds.
pub open spec fn operations(
    tokens: Seq<Token>,
    position: int,
    left: ExpressionView,
    min_precedence: nat,
) -> Parsed<ExpressionView>
    decreases remaining(tokens, position), 2 + if min_precedence <= HIGHEST_PRECEDENCE {
        HIGHEST_PRECEDENCE + 1 - min_precedence
    } else {
        0
    },
{
    if min_precedence > HIGHEST_PRECEDENCE {
        match operator_at(tokens, position) {
            Err(error) => Err(error),
            Ok(_) => Ok((left, 0)),
        }
    } else {
        match operations(tokens, position, left, min_precedence + 1) {
            Err(error) => Err(error),
            Ok((tighter, n)) => after(n, chain(tokens, position + n, tighter, min_precedence)),
        }
    }
}

/// `left` joined from the left with the operations of exactly the precedence
/// `level` that follow one another at `position`. The right operand of each
/// is an expression of the next precedence.
pub open spec fn chain(tokens: Seq<Token>, position: int, left: ExpressionView, level: nat) -> Parsed<
    ExpressionView,
>
    decreases remaining(tokens, position), 1nat,
{
    match operator_at(tokens, position) {
        Err(error) => Err(error),
        Ok(None) => Ok((left, 0)),
        Ok(Some(operator)) => if operator.level() == level {
            match expression(tokens, position + 1, level + 1) {
                Err(error) => Err(error),
                Ok((right, n)) => after(
                    1 + n,
                    chain(
                        tokens,
                        position + 1 + n,
                        ExpressionView::Operation {
                            left: Box::new(left),
                            operator,
                            right: Box::new(right),
                        },
                        level,
                    ),
                ),
            }
        } else {
            Ok((left, 0))
        },
    }
}

/// `let` name `=` expression `;`, with `let` at `position`.
pub open spec fn assignment(tokens: Seq<Token>, position: int) -> Parsed<StatementView> {
    match expected_at(tokens, position + 1, LexSymbol::Identifier) {
        Err(error) => Err(error),
        Ok(name) => match expected_at(tokens, position + 2, LexSymbol::EqualSign) {
            Err(error) => Err(error),
            Ok(_) => match expression(tokens, position + 3, 0) {
                Err(error) => Err(error),
                Ok((value, n)) => match expected_at(
                    tokens,
                    position + 3 + n,
                    LexSymbol::EndOfStatement,
                ) {
                    Err(error) => Err(error),
                    Ok(_) => Ok((StatementView::VariableAssignment { name, value }, 4 + n)),
                },
            },
        },
    }
}

/// `call` name `(` arguments `)` `;`, with `call` at `position`.
pub open spec fn call(tokens: Seq<Token>, position: int) -> Parsed<StatementView> {
    match expected_at(tokens, position + 1, LexSymbol::Identifier) {
        Err(error) => Err(error),
        Ok(target) => match expected_at(tokens, position + 2, LexSymbol::GenericOpeningBracket) {
            Err(error) => Err(error),
            Ok(_) => match arguments(tokens, position + 3) {
                Err(error) => Err(error),
                Ok((args, n)) => match expected_at(
                    tokens,
                    position + 3 + n,
                    LexSymbol::EndOfStatement,
                ) {
                    Err(error) => Err(error),
                    Ok(_) => Ok(
                        (
                            StatementView::ExpressionStatement(
                                ExpressionView::FunctionCall { target, args },
                            ),
                            4 + n,
                        ),
                    ),
                },
            },
        },
    }
}

/// `return` expression `;`, with `return` at `position`. The statement is
/// the expression that is returned.
pub open spec fn returning(tokens: Seq<Token>, position: int) -> Parsed<StatementView> {
    match expression(tokens, position + 1, 0) {
        Err(error) => Err(error),
        Ok((value, n)) => match expected_at(tokens, position + 1 + n, LexSymbol::EndOfStatement) {
            Err(error) => Err(error),
            Ok(_) => Ok((StatementView::ExpressionStatement(value), 2 + n)),
        },
    }
}

/// `(` expression `)` at `position`: the condition of an `if` or a `while`.
pub open spec fn condition(tokens: Seq<Token>, position: int) -> Parsed<ExpressionView> {
    match expected_at(tokens, position, LexSymbol::GenericOpeningBracket) {
        Err(error) => Err(error),
        Ok(_) => match expression(tokens, position + 1, 0) {
            Err(error) => Err(error),
            Ok((value, n)) => match expected_at(
                tokens,
                position + 1 + n,
                LexSymbol::GenericClosingBracket,
            ) {
                Err(error) => Err(error),
                Ok(_) => Ok((value, 2 + n)),
            },
        },
    }
}

/// `{` statements `}` at `position`. The closing bracket may be missing
/// where the tokens end: a body may run to the end of the tokens.
pub open spec fn body(tokens: Seq<Token>, position: int) -> Parsed<Seq<StatementView>>
    decreases remaining(tokens, position), 0nat,
{
    match expected_at(tokens, position, LexSymbol::BlockOpeningBracket) {
        Err(error) => Err(error),
        Ok(_) => match block(tokens, position + 1, LexSymbol::BlockClosingBracket) {
            Err(error) => Err(error),
            Ok((statements, n)) => if symbol_at(tokens, position + 1 + n)
                == LexSymbol::BlockClosingBracket {
                Ok((statements, 2 + n))
            } else {
                Ok((statements, 1 + n))
            },
        },
    }
}

/// `function` name `(` arguments `)` body, with `function` or `fn` at
/// `position`. The parameters are read as arguments are.
pub open spec fn definition(tokens: Seq<Token>, position: int) -> Parsed<StatementView>
    decreases remaining(tokens, position), 1nat,
{
    match expected_at(tokens, position + 1, LexSymbol::Identifier) {
        Err(error) => Err(error),
        Ok(name) => match expected_at(tokens, position + 2, LexSymbol::GenericOpeningBracket) {
            Err(error) => Err(error),
            Ok(_) => match arguments(tokens, position + 3) {
                Err(error) => Err(error),
                Ok((parameters, n)) => match body(tokens, position + 3 + n) {
                    Err(error) => Err(error),
                    Ok((statements, k)) => Ok(
                        (
                            StatementView::FunctionAssignment {
                                name,
                                arguments: parameters,
                                body: statements,
                            },
                            3 + n + k,
                        ),
                    ),
                },
            },
        },
    }
}

/// `if` or `while`, then a condition and a body, with the keyword at
/// `position`.
pub open spec fn guarded(tokens: Seq<Token>, position: int, word: Keyword) -> Parsed<StatementView>
    decreases remaining(tokens, position), 1nat,
{
    match condition(tokens, position + 1) {
        Err(error) => Err(error),
        Ok((value, n)) => match body(tokens, position + 1 + n) {
            Err(error) => Err(error),
            Ok((statements, k)) => Ok(
                (
                    if word == Keyword::While {
                        StatementView::While { condition: value, body: statements }
                    } else {
                        StatementView::ConditionalStatement { condition: value, body: statements }
                    },
                    1 + n + k,
                ),
            ),
        },
    }
}

/// The statement at `position`, chosen by its first token. A statement
/// terminator alone is an empty statement, which has no value. Any first
/// token but a reserved word or a terminator is an error.
pub open spec fn statement(tokens: Seq<Token>, position: int) -> Parsed<Option<StatementView>>
    decreases remaining(tokens, position), 2nat,
{
    match symbol_at(tokens, position) {
        LexSymbol::EndOfStatement => Ok((None, 1)),
        LexSymbol::Keyword => {
            let formed = match keyword(tokens[position].value) {
                Some(Keyword::Let) => assignment(tokens, position),
                Some(Keyword::Function) => definition(tokens, position),
                Some(Keyword::Call) => call(tokens, position),
                Some(Keyword::Return) => returning(tokens, position),
                Some(Keyword::If) => guarded(tokens, position, Keyword::If),
                Some(Keyword::While) => guarded(tokens, position, Keyword::While),
                None => Err(mismatch(LexSymbol::Keyword, tokens, position)),
            };
            match formed {
                Err(error) => Err(error),
                Ok((value, n)) => Ok((Some(value), n)),
            }
        },
        _ => Err(mismatch(LexSymbol::Keyword, tokens, position)),
    }
}

/// The statements from `position` up to, and without, the first token of the
/// kind `stop` at which a statement would begin, or up to the end of the
/// tokens. Empty statements leave no trace.
///
/// A statement spans at least its first token. The test for that is never
/// met; it is there so that the definition is seen to come to an end.
pub open spec fn block(tokens: Seq<Token>, position: int, stop: LexSymbol) -> Parsed<
    Seq<StatementView>,
>
    decreases remaining(tokens, position), 3nat,
{
    if symbol_at(tokens, position) == stop || symbol_at(tokens, position)
        == LexSymbol::EndOfStream {
        Ok((Seq::empty(), 0))
    } else {
        match statement(tokens, position) {
            Err(error) => Err(error),
            Ok((first, n)) => if n == 0 {
                Ok((Seq::empty(), 0))
            } else {
                match block(tokens, position + n, stop) {
                    Err(error) => Err(error),
                    Ok((rest, k)) => Ok(
                        (
                            match first {
                                Some(value) => seq![value] + rest,
                                None => rest,
                            },
                            n + k,
                        ),
                    ),
                }
            },
        }
    }
}

/// A reading of several values in a row, after `values` were read from `n`
/// tokens before it.
pub open spec fn continued<T>(values: Seq<T>, n: nat, parsed: Parsed<Seq<T>>) -> Parsed<Seq<T>> {
    match parsed {
        Err(error) => Err(error),
        Ok((rest, k)) => Ok((values + rest, n + k)),
    }
}

/// The statements of a whole program, or its first error.
pub open spec fn program(tokens: Seq<Token>) -> Result<Seq<StatementView>, SyntaxError> {
    match block(tokens, 0, LexSymbol::EndOfStream) {
        Err(error) => Err(error),
        Ok((statements, _)) => Ok(statements),
    }
}

/// A statement spans at least one token.
pub proof fn lemma_statement_spans(tokens: Seq<Token>, position: int)
    requires
        statement(tokens, position) is Ok,
    ensures
        statement(tokens, position)->Ok_0.1 >= 1,
{
}

/// A text of digits writes no less than any of its beginnings does.
pub proof fn lemma_decimal_grows(text: Seq<char>, n: int)
    requires
        0 <= n <= text.len(),
        forall|i: int| 0 <= i < text.len() ==> digit(#[trigger] text[i]),
    ensures
        0 <= decimal(text.take(n)) <= decimal(text),
    decreases text.len(),
{
    if n == text.len() {
        assert(text.take(n) == text);
        if n > 0 {
            lemma_decimal_grows(text.drop_last(), n - 1);
        }
    } else {
        assert(text.drop_last().take(n) == text.take(n));
        lemma_decimal_grows(text.drop_last(), n);
    }
}

} // verus!
