//! What holds of everything that the grammar reads: values stay within the
//! tokens, operations nest by precedence, and what was read from a stretch
//! of tokens is read from that stretch alone.

use crate::ast::{ExpressionView, HIGHEST_PRECEDENCE};
use crate::compiler_settings::{keyword, Keyword};
use crate::grammar::{
    argument_list, arguments, block, body, chain, condition, definition, expression, guarded,
    lemma_statement_spans, operations, operator_at, program, remaining, statement, symbol_at,
    term,
};
use crate::lexer::{LexSymbol, Token};
use vstd::prelude::*;

verus! {

/// The expression binds at least as tightly as `level`: it is no operation,
/// or an operation whose operator has that precedence or a higher one.
pub open spec fn binds(expression: ExpressionView, level: nat) -> bool {
    expression matches ExpressionView::Operation { operator, .. } ==> operator.level() >= level
}

/// Operations nest by precedence, here and in every part of the expression:
/// the left operand binds at least as tightly as the operator, and the right
/// operand binds tighter.
pub open spec fn nested(expression: ExpressionView) -> bool
    decreases expression,
{
    match expression {
        ExpressionView::Operation { left, operator, right } => {
            &&& nested(*left)
            &&& nested(*right)
            &&& binds(*left, operator.level())
            &&& binds(*right, operator.level() + 1)
        },
        ExpressionView::FunctionCall { target, args } => forall|i: int|
            0 <= i < args.len() ==> nested(#[trigger] args[i]),
        _ => true,
    }
}

/// A term begins at a token, ends within the tokens, and is no operation.
pub proof fn lemma_term_shape(tokens: Seq<Token>, position: int)
    requires
        term(tokens, position) is Ok,
    ensures
        ({
            let (value, n) = term(tokens, position)->Ok_0;
            &&& 0 <= position
            &&& 1 <= n
            &&& position + n <= tokens.len()
            &&& nested(value)
            &&& !(value is Operation)
        }),
    decreases remaining(tokens, position), 0nat,
{
    if symbol_at(tokens, position) == LexSymbol::Identifier && symbol_at(tokens, position + 1)
        == LexSymbol::GenericOpeningBracket {
        lemma_arguments_shape(tokens, position + 2);
    }
}

/// Arguments end within the tokens, and each of them nests by precedence.
pub proof fn lemma_arguments_shape(tokens: Seq<Token>, position: int)
    requires
        arguments(tokens, position) is Ok,
    ensures
        ({
            let (values, n) = arguments(tokens, position)->Ok_0;
            &&& 0 <= position
            &&& 1 <= n
            &&& position + n <= tokens.len()
            &&& forall|i: int| 0 <= i < values.len() ==> nested(#[trigger] values[i])
        }),
    decreases remaining(tokens, position), 8nat,
{
    if symbol_at(tokens, position) != LexSymbol::GenericClosingBracket {
        lemma_argument_list_shape(tokens, position);
    }
}

/// A list of arguments ends within the tokens, and each of them nests by
/// precedence.
pub proof fn lemma_argument_list_shape(tokens: Seq<Token>, position: int)
    requires
        argument_list(tokens, position) is Ok,
    ensures
        ({
            let (values, n) = argument_list(tokens, position)->Ok_0;
            &&& 0 <= position
            &&& 1 <= n
            &&& position + n <= tokens.len()
            &&& forall|i: int| 0 <= i < values.len() ==> nested(#[trigger] values[i])
        }),
    decreases remaining(tokens, position), 7nat,
{
    lemma_expression_shape(tokens, position, 0);
    let (first, n) = expression(tokens, position, 0)->Ok_0;
    if symbol_at(tokens, position + n) == LexSymbol::Comma {
        lemma_argument_list_shape(tokens, position + n + 1);
        let (rest, k) = argument_list(tokens, position + n + 1)->Ok_0;
        let values = seq![first] + rest;
        assert forall|i: int| 0 <= i < values.len() implies nested(#[trigger] values[i]) by {
            if i > 0 {
                assert(values[i] == rest[i - 1]);
            }
        }
    }
}

/// An expression begins at a token and ends within the tokens. Its
/// operations nest by precedence, and it binds at least as tightly as the
/// least precedence that it was read with.
///
/// So a tighter operator that comes later in the text still takes its
/// operands first, and operators of one precedence are joined from the
/// left: the right operand of an operation never holds an operator of the
/// same precedence at its top.
pub proof fn lemma_expression_shape(tokens: Seq<Token>, position: int, min_precedence: nat)
    requires
        expression(tokens, position, min_precedence) is Ok,
    ensures
        ({
            let (value, n) = expression(tokens, position, min_precedence)->Ok_0;
            &&& 0 <= position
            &&& 1 <= n
            &&& position + n <= tokens.len()
            &&& nested(value)
            &&& binds(value, min_precedence)
        }),
    decreases remaining(tokens, position), 6nat,
{
    lemma_term_shape(tokens, position);
    let (first, n) = term(tokens, position)->Ok_0;
    lemma_operations_shape(tokens, position + n, first, min_precedence);
}

/// Joining operations to a term keeps within the tokens and nests by
/// precedence.
pub proof fn lemma_operations_shape(
    tokens: Seq<Token>,
    position: int,
    left: ExpressionView,
    min_precedence: nat,
)
    requires
        0 <= position <= tokens.len(),
        nested(left),
        !(left is Operation),
        operations(tokens, position, left, min_precedence) is Ok,
    ensures
        ({
            let (value, n) = operations(tokens, position, left, min_precedence)->Ok_0;
            &&& position + n <= tokens.len()
            &&& nested(value)
            &&& binds(value, min_precedence)
        }),
    decreases remaining(tokens, position), 2 + if min_precedence <= HIGHEST_PRECEDENCE {
        HIGHEST_PRECEDENCE + 1 - min_precedence
    } else {
        0
    },
{
    if min_precedence <= HIGHEST_PRECEDENCE {
        lemma_operations_shape(tokens, position, left, min_precedence + 1);
        let (tighter, n) = operations(tokens, position, left, min_precedence + 1)->Ok_0;
        lemma_chain_shape(tokens, position + n, tighter, min_precedence);
    }
}

/// A chain of one precedence keeps within the tokens and nests by
/// precedence.
pub proof fn lemma_chain_shape(tokens: Seq<Token>, position: int, left: ExpressionView, level: nat)
    requires
        0 <= position <= tokens.len(),
        nested(left),
        binds(left, level),
        chain(tokens, position, left, level) is Ok,
    ensures
        ({
            let (value, n) = chain(tokens, position, left, level)->Ok_0;
            &&& position + n <= tokens.len()
            &&& nested(value)
            &&& binds(value, level)
        }),
    decreases remaining(tokens, position), 1nat,
{
    if let Ok(Some(operator)) = operator_at(tokens, position) {
        if operator.level() == level {
            lemma_expression_shape(tokens, position + 1, level + 1);
            let (right, n) = expression(tokens, position + 1, level + 1)->Ok_0;
            let joined = ExpressionView::Operation {
                left: Box::new(left),
                operator,
                right: Box::new(right),
            };
            lemma_chain_shape(tokens, position + 1 + n, joined, level);
        }
    }
}

/// A body in curly brackets begins at a token and ends within the tokens.
pub proof fn lemma_body_within(tokens: Seq<Token>, position: int)
    requires
        body(tokens, position) is Ok,
    ensures
        0 <= position,
        1 <= body(tokens, position)->Ok_0.1,
        position + body(tokens, position)->Ok_0.1 <= tokens.len(),
    decreases remaining(tokens, position), 0nat,
{
    lemma_block_within(tokens, position + 1, LexSymbol::BlockClosingBracket);
}

/// A definition ends within the tokens.
pub proof fn lemma_definition_within(tokens: Seq<Token>, position: int)
    requires
        0 <= position,
        definition(tokens, position) is Ok,
    ensures
        position + definition(tokens, position)->Ok_0.1 <= tokens.len(),
    decreases remaining(tokens, position), 1nat,
{
    lemma_arguments_shape(tokens, position + 3);
    let (parameters, n) = arguments(tokens, position + 3)->Ok_0;
    lemma_body_within(tokens, position + 3 + n);
}

/// An `if` or a `while` ends within the tokens.
pub proof fn lemma_guarded_within(tokens: Seq<Token>, position: int, word: Keyword)
    requires
        0 <= position,
        guarded(tokens, position, word) is Ok,
    ensures
        position + guarded(tokens, position, word)->Ok_0.1 <= tokens.len(),
    decreases remaining(tokens, position), 1nat,
{
    lemma_condition_within(tokens, position + 1);
    let (value, n) = condition(tokens, position + 1)->Ok_0;
    lemma_body_within(tokens, position + 1 + n);
}

/// A statement begins at a token and ends within the tokens.
pub proof fn lemma_statement_within(tokens: Seq<Token>, position: int)
    requires
        statement(tokens, position) is Ok,
    ensures
        0 <= position,
        1 <= statement(tokens, position)->Ok_0.1,
        position + statement(tokens, position)->Ok_0.1 <= tokens.len(),
    decreases remaining(tokens, position), 2nat,
{
    lemma_statement_spans(tokens, position);
    if symbol_at(tokens, position) == LexSymbol::Keyword {
        match keyword(tokens[position].value) {
            Some(Keyword::Let) => {
                lemma_expression_shape(tokens, position + 3, 0);
            },
            Some(Keyword::Function) => {
                lemma_definition_within(tokens, position);
            },
            Some(Keyword::Call) => {
                lemma_arguments_shape(tokens, position + 3);
            },
            Some(Keyword::Return) => {
                lemma_expression_shape(tokens, position + 1, 0);
            },
            Some(Keyword::If) => {
                lemma_guarded_within(tokens, position, Keyword::If);
            },
            Some(Keyword::While) => {
                lemma_guarded_within(tokens, position, Keyword::While);
            },
            None => {},
        }
    }
}

/// Statements in a row end within the tokens.
pub proof fn lemma_block_within(tokens: Seq<Token>, position: int, stop: LexSymbol)
    requires
        0 <= position <= tokens.len(),
        block(tokens, position, stop) is Ok,
    ensures
        position + block(tokens, position, stop)->Ok_0.1 <= tokens.len(),
    decreases remaining(tokens, position), 3nat,
{
    if !(symbol_at(tokens, position) == stop || symbol_at(tokens, position)
        == LexSymbol::EndOfStream) {
        lemma_statement_within(tokens, position);
        let (first, n) = statement(tokens, position)->Ok_0;
        lemma_block_within(tokens, position + n, stop);
    }
}

/// A term is read from its own tokens as it is read among others.
pub proof fn lemma_term_alone(tokens: Seq<Token>, from: int, to: int, at: int)
    requires
        0 <= from <= to <= tokens.len(),
        0 <= at,
        term(tokens, from + at) is Ok,
        at + term(tokens, from + at)->Ok_0.1 <= to - from,
    ensures
        term(tokens.subrange(from, to), at) == term(tokens, from + at),
    decreases remaining(tokens, from + at), 0nat,
{
    lemma_term_shape(tokens, from + at);
    if symbol_at(tokens, from + at) == LexSymbol::Identifier && symbol_at(tokens, from + at + 1)
        == LexSymbol::GenericOpeningBracket {
        lemma_arguments_shape(tokens, from + at + 2);
        lemma_arguments_alone(tokens, from, to, at + 2);
    }
}

/// Arguments are read from their own tokens as they are read among others.
pub proof fn lemma_arguments_alone(tokens: Seq<Token>, from: int, to: int, at: int)
    requires
        0 <= from <= to <= tokens.len(),
        0 <= at,
        arguments(tokens, from + at) is Ok,
        at + arguments(tokens, from + at)->Ok_0.1 <= to - from,
    ensures
        arguments(tokens.subrange(from, to), at) == arguments(tokens, from + at),
    decreases remaining(tokens, from + at), 8nat,
{
    lemma_arguments_shape(tokens, from + at);
    if symbol_at(tokens, from + at) != LexSymbol::GenericClosingBracket {
        lemma_argument_list_alone(tokens, from, to, at);
    }
}

/// A list of arguments is read from its own tokens as it is read among
/// others.
pub proof fn lemma_argument_list_alone(tokens: Seq<Token>, from: int, to: int, at: int)
    requires
        0 <= from <= to <= tokens.len(),
        0 <= at,
        argument_list(tokens, from + at) is Ok,
        at + argument_list(tokens, from + at)->Ok_0.1 <= to - from,
    ensures
        argument_list(tokens.subrange(from, to), at) == argument_list(tokens, from + at),
    decreases remaining(tokens, from + at), 7nat,
{
    lemma_expression_shape(tokens, from + at, 0);
    let (first, n) = expression(tokens, from + at, 0)->Ok_0;
    if symbol_at(tokens, from + at + n) == LexSymbol::Comma {
        lemma_argument_list_shape(tokens, from + at + n + 1);
        lemma_argument_list_alone(tokens, from, to, at + n + 1);
    }
    lemma_expression_alone(tokens, from, to, at, 0);
}

/// An expression is read from its own tokens as it is read among others.
pub proof fn lemma_expression_alone(
    tokens: Seq<Token>,
    from: int,
    to: int,
    at: int,
    min_precedence: nat,
)
    requires
        0 <= from <= to <= tokens.len(),
        0 <= at,
        expression(tokens, from + at, min_precedence) is Ok,
        at + expression(tokens, from + at, min_precedence)->Ok_0.1 <= to - from,
    ensures
        expression(tokens.subrange(from, to), at, min_precedence) == expression(
            tokens,
            from + at,
            min_precedence,
        ),
    decreases remaining(tokens, from + at), 6nat,
{
    lemma_term_shape(tokens, from + at);
    let (first, n) = term(tokens, from + at)->Ok_0;
    lemma_term_alone(tokens, from, to, at);
    lemma_operations_alone(tokens, from, to, at + n, first, min_precedence);
}

/// Operations are joined from their own tokens as they are among others.
pub proof fn lemma_operations_alone(
    tokens: Seq<Token>,
    from: int,
    to: int,
    at: int,
    left: ExpressionView,
    min_precedence: nat,
)
    requires
        0 <= from <= to <= tokens.len(),
        0 <= at,
        operations(tokens, from + at, left, min_precedence) is Ok,
        at + operations(tokens, from + at, left, min_precedence)->Ok_0.1 <= to - from,
    ensures
        operations(tokens.subrange(from, to), at, left, min_precedence) == operations(
            tokens,
            from + at,
            left,
            min_precedence,
        ),
    decreases remaining(tokens, from + at), 2 + if min_precedence <= HIGHEST_PRECEDENCE {
        HIGHEST_PRECEDENCE + 1 - min_precedence
    } else {
        0
    },
{
    if min_precedence <= HIGHEST_PRECEDENCE {
        lemma_operations_alone(tokens, from, to, at, left, min_precedence + 1);
        let (tighter, n) = operations(tokens, from + at, left, min_precedence + 1)->Ok_0;
        lemma_chain_alone(tokens, from, to, at + n, tighter, min_precedence);
    }
}

/// A chain is joined from its own tokens as it is among others.
pub proof fn lemma_chain_alone(
    tokens: Seq<Token>,
    from: int,
    to: int,
    at: int,
    left: ExpressionView,
    level: nat,
)
    requires
        0 <= from <= to <= tokens.len(),
        0 <= at,
        chain(tokens, from + at, left, level) is Ok,
        at + chain(tokens, from + at, left, level)->Ok_0.1 <= to - from,
    ensures
        chain(tokens.subrange(from, to), at, left, level) == chain(tokens, from + at, left, level),
    decreases remaining(tokens, from + at), 1nat,
{
    if let Ok(Some(operator)) = operator_at(tokens, from + at) {
        if operator.level() == level {
            lemma_expression_alone(tokens, from, to, at + 1, level + 1);
            let (right, n) = expression(tokens, from + at + 1, level + 1)->Ok_0;
            let joined = ExpressionView::Operation {
                left: Box::new(left),
                operator,
                right: Box::new(right),
            };
            lemma_chain_alone(tokens, from, to, at + 1 + n, joined, level);
        }
    }
}

/// A body in curly brackets is read from its own tokens as it is read among
/// others.
pub proof fn lemma_body_alone(tokens: Seq<Token>, from: int, to: int, at: int)
    requires
        0 <= from <= to <= tokens.len(),
        0 <= at,
        body(tokens, from + at) is Ok,
        at + body(tokens, from + at)->Ok_0.1 <= to - from,
    ensures
        body(tokens.subrange(from, to), at) == body(tokens, from + at),
    decreases remaining(tokens, from + at), 0nat,
{
    lemma_block_alone(tokens, from, to, at + 1, LexSymbol::BlockClosingBracket);
}

/// A definition is read from its own tokens as it is read among others.
pub proof fn lemma_definition_alone(tokens: Seq<Token>, from: int, to: int, at: int)
    requires
        0 <= from <= to <= tokens.len(),
        0 <= at,
        definition(tokens, from + at) is Ok,
        at + definition(tokens, from + at)->Ok_0.1 <= to - from,
    ensures
        definition(tokens.subrange(from, to), at) == definition(tokens, from + at),
    decreases remaining(tokens, from + at), 1nat,
{
    lemma_arguments_shape(tokens, from + at + 3);
    let (parameters, n) = arguments(tokens, from + at + 3)->Ok_0;
    lemma_arguments_alone(tokens, from, to, at + 3);
    lemma_body_alone(tokens, from, to, at + 3 + n);
}

/// A condition in round brackets begins at a token and ends within the
/// tokens.
pub proof fn lemma_condition_within(tokens: Seq<Token>, position: int)
    requires
        condition(tokens, position) is Ok,
    ensures
        0 <= position,
        2 <= condition(tokens, position)->Ok_0.1,
        position + condition(tokens, position)->Ok_0.1 <= tokens.len(),
{
    lemma_expression_shape(tokens, position + 1, 0);
}

/// A condition in round brackets is read from its own tokens as it is read
/// among others.
pub proof fn lemma_condition_alone(tokens: Seq<Token>, from: int, to: int, at: int)
    requires
        0 <= from <= to <= tokens.len(),
        0 <= at,
        condition(tokens, from + at) is Ok,
        at + condition(tokens, from + at)->Ok_0.1 <= to - from,
    ensures
        condition(tokens.subrange(from, to), at) == condition(tokens, from + at),
{
    lemma_expression_shape(tokens, from + at + 1, 0);
    lemma_expression_alone(tokens, from, to, at + 1, 0);
}

/// An `if` or a `while` is read from its own tokens as it is read among
/// others.
pub proof fn lemma_guarded_alone(tokens: Seq<Token>, from: int, to: int, at: int, word: Keyword)
    requires
        0 <= from <= to <= tokens.len(),
        0 <= at,
        guarded(tokens, from + at, word) is Ok,
        at + guarded(tokens, from + at, word)->Ok_0.1 <= to - from,
    ensures
        guarded(tokens.subrange(from, to), at, word) == guarded(tokens, from + at, word),
    decreases remaining(tokens, from + at), 1nat,
{
    let (value, n) = condition(tokens, from + at + 1)->Ok_0;
    lemma_condition_within(tokens, from + at + 1);
    lemma_body_within(tokens, from + at + 1 + n);
    lemma_condition_alone(tokens, from, to, at + 1);
    lemma_body_alone(tokens, from, to, at + 1 + n);
}

/// A statement is read from its own tokens as it is read among others.
pub proof fn lemma_statement_alone(tokens: Seq<Token>, from: int, to: int, at: int)
    requires
        0 <= from <= to <= tokens.len(),
        0 <= at,
        statement(tokens, from + at) is Ok,
        at + statement(tokens, from + at)->Ok_0.1 <= to - from,
    ensures
        statement(tokens.subrange(from, to), at) == statement(tokens, from + at),
    decreases remaining(tokens, from + at), 2nat,
{
    lemma_statement_spans(tokens, from + at);
    if symbol_at(tokens, from + at) == LexSymbol::Keyword {
        match keyword(tokens[from + at].value) {
            Some(Keyword::Let) => {
                lemma_expression_shape(tokens, from + at + 3, 0);
                lemma_expression_alone(tokens, from, to, at + 3, 0);
            },
            Some(Keyword::Function) => {
                lemma_definition_alone(tokens, from, to, at);
            },
            Some(Keyword::Call) => {
                lemma_arguments_shape(tokens, from + at + 3);
                lemma_arguments_alone(tokens, from, to, at + 3);
            },
            Some(Keyword::Return) => {
                lemma_expression_shape(tokens, from + at + 1, 0);
                lemma_expression_alone(tokens, from, to, at + 1, 0);
            },
            Some(Keyword::If) => {
                lemma_guarded_alone(tokens, from, to, at, Keyword::If);
            },
            Some(Keyword::While) => {
                lemma_guarded_alone(tokens, from, to, at, Keyword::While);
            },
            None => {},
        }
    }
}

/// Statements in a row are read from their own tokens as they are read
/// among others.
pub proof fn lemma_block_alone(tokens: Seq<Token>, from: int, to: int, at: int, stop: LexSymbol)
    requires
        0 <= from <= to <= tokens.len(),
        0 <= at,
        block(tokens, from + at, stop) is Ok,
        at + block(tokens, from + at, stop)->Ok_0.1 <= to - from,
    ensures
        block(tokens.subrange(from, to), at, stop) == block(tokens, from + at, stop),
    decreases remaining(tokens, from + at), 3nat,
{
    if !(symbol_at(tokens, from + at) == stop || symbol_at(tokens, from + at)
        == LexSymbol::EndOfStream) {
        lemma_statement_within(tokens, from + at);
        let (first, n) = statement(tokens, from + at)->Ok_0;
        lemma_statement_alone(tokens, from, to, at);
        lemma_block_alone(tokens, from, to, at + n, stop);
    }
}

/// Statements that were read up to a stopping token are, taken by
/// themselves, read to their end.
proof fn lemma_block_to_the_end(tokens: Seq<Token>, from: int, to: int, at: int, stop: LexSymbol)
    requires
        0 <= from <= to <= tokens.len(),
        0 <= at,
        block(tokens, from + at, stop) is Ok,
        at + block(tokens, from + at, stop)->Ok_0.1 == to - from,
    ensures
        block(tokens.subrange(from, to), at, LexSymbol::EndOfStream) == block(
            tokens,
            from + at,
            stop,
        ),
    decreases remaining(tokens, from + at), 3nat,
{
    if !(symbol_at(tokens, from + at) == stop || symbol_at(tokens, from + at)
        == LexSymbol::EndOfStream) {
        lemma_statement_within(tokens, from + at);
        let (first, n) = statement(tokens, from + at)->Ok_0;
        lemma_statement_alone(tokens, from, to, at);
        lemma_block_to_the_end(tokens, from, to, at + n, stop);
    }
}

/// An expression that was read among other tokens is the expression of its
/// own tokens: read from them alone, it comes out the same and takes them
/// all. The condition of an `if` or a `while` is such an expression.
pub proof fn lemma_expression_parses_alone(
    tokens: Seq<Token>,
    position: int,
    min_precedence: nat,
)
    requires
        expression(tokens, position, min_precedence) is Ok,
    ensures
        ({
            let (value, n) = expression(tokens, position, min_precedence)->Ok_0;
            &&& 0 <= position
            &&& position + n <= tokens.len()
            &&& expression(tokens.subrange(position, position + n), 0, min_precedence) == Ok::<
                _,
                crate::parser::SyntaxError,
            >((value, n))
        }),
{
    lemma_expression_shape(tokens, position, min_precedence);
    let (value, n) = expression(tokens, position, min_precedence)->Ok_0;
    lemma_expression_alone(tokens, position, position + n, 0, min_precedence);
}

/// Statements that were read among other tokens, up to whatever stopped
/// them, are a program by themselves: their own tokens alone parse to the
/// same statements. The body of a function, of an `if` and of a `while` are
/// such statements.
pub proof fn lemma_block_parses_alone(tokens: Seq<Token>, position: int, stop: LexSymbol)
    requires
        0 <= position <= tokens.len(),
        block(tokens, position, stop) is Ok,
    ensures
        ({
            let (statements, n) = block(tokens, position, stop)->Ok_0;
            &&& position + n <= tokens.len()
            &&& program(tokens.subrange(position, position + n)) == Ok::<
                _,
                crate::parser::SyntaxError,
            >(statements)
        }),
{
    lemma_block_within(tokens, position, stop);
    let (statements, n) = block(tokens, position, stop)->Ok_0;
    lemma_block_to_the_end(tokens, position, position + n, 0, stop);
}

} // verus!
