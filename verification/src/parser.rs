//! The parser: tokens in, statements out, or the first syntax error.

use crate::ast::{
    find_operator, lemma_body_view, lemma_call_view, Expression, ExpressionView, Operator,
    Statement, StatementView,
};
use crate::climbing::{
    lemma_operations_settle, lemma_operations_step, lemma_settled_stays, lemma_unknown_operator,
    settled,
};
use crate::compiler_settings::{digit, find_keyword, is_digit, keyword, Keyword};
use crate::grammar::{
    after, argument_list, arguments, assignment, block, body, call, condition, continued, decimal,
    definition, expected_at, expression, guarded, integer_value, lemma_decimal_grows,
    lemma_statement_spans, location_at, mismatch, operations, operator_at, program, remaining,
    returning, statement, symbol_at, term, Parsed,
};
use crate::lexer::{to_chars, LexSymbol, Lexeme, Location, Token};
use vstd::prelude::*;

verus! {

/// What stopped the parser: the kind of token that was expected, the kind
/// that was found, and the place of the token found.
#[derive(Clone, Copy, Debug, PartialEq, Eq, Structural)]
pub struct SyntaxError {
    pub expected: LexSymbol,
    pub found: LexSymbol,
    pub location: Location,
}

/// A reader over tokens that looks one token ahead and only moves forward.
pub struct TokenCursor<'a> {
    pub tokens: &'a [Lexeme],
    pub position: usize,
}

impl<'a> TokenCursor<'a> {
    /// The tokens that are read, as values.
    pub open spec fn stream(&self) -> Seq<Token> {
        self.tokens.deep_view()
    }

    /// A reader at the first of `tokens`.
    pub fn new(tokens: &'a [Lexeme]) -> (lexeme: Self)
        ensures
            lexeme.tokens == tokens,
            lexeme.position == 0,
    {
        TokenCursor { tokens, position: 0 }
    }

    /// The kind of the next token; `EndOfStream` if none is left.
    pub fn peek(&self) -> (symbol: LexSymbol)
        ensures
            symbol == symbol_at(self.stream(), self.position as int),
    {
        if self.position < self.tokens.len() {
            self.tokens[self.position].symbol
        } else {
            LexSymbol::EndOfStream
        }
    }

    /// The place of the next token; that of the last token if none is left.
    pub fn location(&self) -> (location: Location)
        ensures
            location == location_at(self.stream(), self.position as int),
    {
        let count = self.tokens.len();
        if self.position < count {
            self.tokens[self.position].location
        } else if count > 0 {
            self.tokens[count - 1].location
        } else {
            Location { line: 1, column: 1 }
        }
    }

    /// Reads one token.
    fn advance(&mut self)
        requires
            old(self).position < old(self).tokens@.len(),
        ensures
            moved(*old(self), *final(self), 1),
    {
        proof {
            assert(self.tokens.len() == self.tokens@.len());
        }
        self.position = self.position + 1;
    }

    /// The text of the next token, as characters.
    fn text(&self) -> (text: Vec<char>)
        requires
            self.position < self.tokens@.len(),
        ensures
            text@ == self.stream()[self.position as int].value,
    {
        to_chars(self.tokens[self.position].value.as_str())
    }

    /// The error of finding the next token where `expected` should be.
    pub fn unexpected(&self, expected: LexSymbol) -> (error: SyntaxError)
        ensures
            error == mismatch(expected, self.stream(), self.position as int),
    {
        SyntaxError { expected, found: self.peek(), location: self.location() }
    }
}

/// The reader has read `n` more tokens of the same sequence.
pub open spec fn moved(before: TokenCursor, now: TokenCursor, n: nat) -> bool {
    now.tokens == before.tokens && now.position == before.position + n
}

/// The reader has read on in the same sequence up to the token that `error`
/// reports, and stands on it.
pub open spec fn stopped(before: TokenCursor, now: TokenCursor, error: SyntaxError) -> bool {
    &&& now.tokens == before.tokens
    &&& before.position <= now.position
    &&& error.found == symbol_at(now.stream(), now.position as int)
    &&& error.location == location_at(now.stream(), now.position as int)
}

/// What it means that a parsing step did what the grammar says: it returned
/// the value that the grammar gives, having read as many tokens as that
/// value spans; or it returned the error that the grammar gives, with the
/// reader on the token that the error reports.
pub open spec fn follows<T: DeepView>(
    before: TokenCursor,
    now: TokenCursor,
    result: Result<T, SyntaxError>,
    grammar: Parsed<T::V>,
) -> bool {
    match grammar {
        Ok((value, n)) => {
            &&& result matches Ok(read)
            &&& read.deep_view() == value
            &&& moved(before, now, n)
        },
        Err(error) => {
            &&& result matches Err(raised)
            &&& raised == error
            &&& stopped(before, now, error)
        },
    }
}

/// Reads the next token if it is of the kind `expectation`, and returns its
/// text. Otherwise reads nothing and returns the mismatch.
pub fn expect(expectation: LexSymbol, lexeme: &mut TokenCursor) -> (result: Result<
    String,
    SyntaxError,
>)
    ensures
        match expected_at(old(lexeme).stream(), old(lexeme).position as int, expectation) {
            Ok(text) => {
                &&& result matches Ok(value)
                &&& value@ == text
                &&& moved(*old(lexeme), *final(lexeme), 1)
            },
            Err(error) => result == Err::<String, SyntaxError>(error) && *final(lexeme) == *old(
                lexeme,
            ),
        },
{
    if lexeme.position < lexeme.tokens.len() && lexeme.tokens[lexeme.position].symbol
        == expectation {
        let value = lexeme.tokens[lexeme.position].value.clone();
        lexeme.position = lexeme.position + 1;
        Ok(value)
    } else {
        Err(lexeme.unexpected(expectation))
    }
}

/// Reads `text` as an integer literal: one or more decimal digits that write
/// a number an `i64` holds. Anything else is `None`.
pub fn parse_integer(text: &[char]) -> (value: Option<i64>)
    ensures
        value == integer_value(text@),
{
    let mut total: i64 = 0;
    let mut at: usize = 0;
    while at < text.len()
        invariant
            at <= text.len(),
            forall|i: int| 0 <= i < at ==> digit(#[trigger] text@[i]),
            0 <= total,
            total == decimal(text@.take(at as int)),
        decreases text.len() - at,
    {
        let c = text[at];
        if !is_digit(c) {
            return None;
        }
        let units: i64 = (c as u32 - '0' as u32) as i64;
        proof {
            let read = text@.take(at + 1);
            assert(read.drop_last() == text@.take(at as int));
            assert(read.last() == c);
            if forall|i: int| 0 <= i < text@.len() ==> digit(#[trigger] text@[i]) {
                lemma_decimal_grows(text@, at + 1);
            }
        }
        if total > (i64::MAX - units) / 10 {
            return None;
        }
        total = total * 10 + units;
        at = at + 1;
    }
    proof {
        assert(text@.take(at as int) == text@);
    }
    if at == 0 {
        None
    } else {
        Some(total)
    }
}

/// The operator that the next token writes: `None` if the next token is no
/// operator token, an error if it is one that the table of operators does
/// not hold. Nothing is read.
pub fn lookahead(lexeme: &TokenCursor) -> (result: Result<Option<Operator>, SyntaxError>)
    ensures
        result == operator_at(lexeme.stream(), lexeme.position as int),
{
    if lexeme.peek() == LexSymbol::OperationalSymbol {
        let text = lexeme.text();
        match find_operator(text.as_slice()) {
            Some(operator) => Ok(Some(operator)),
            None => Err(lexeme.unexpected(LexSymbol::OperationalSymbol)),
        }
    } else {
        Ok(None)
    }
}

/// Reads an operator. If the next token does not write one, reads nothing
/// and returns the mismatch.
pub fn parse_operator(lexeme: &mut TokenCursor) -> (result: Result<Operator, SyntaxError>)
    ensures
        match operator_at(old(lexeme).stream(), old(lexeme).position as int) {
            Ok(Some(operator)) => result == Ok::<Operator, SyntaxError>(operator) && moved(
                *old(lexeme),
                *final(lexeme),
                1,
            ),
            _ => result == Err::<Operator, SyntaxError>(
                mismatch(
                    LexSymbol::OperationalSymbol,
                    old(lexeme).stream(),
                    old(lexeme).position as int,
                ),
            ) && *final(lexeme) == *old(lexeme),
        },
{
    match lookahead(lexeme) {
        Ok(Some(operator)) => {
            lexeme.advance();
            Ok(operator)
        },
        Ok(None) => Err(lexeme.unexpected(LexSymbol::OperationalSymbol)),
        Err(error) => Err(error),
    }
}

/// Reads a term: a literal, a variable, or a call with its arguments.
pub fn parse_term(lexeme: &mut TokenCursor) -> (result: Result<Expression, SyntaxError>)
    ensures
        follows(
            *old(lexeme),
            *final(lexeme),
            result,
            term(old(lexeme).stream(), old(lexeme).position as int),
        ),
    decreases remaining(old(lexeme).stream(), old(lexeme).position as int), 0nat,
{
    match lexeme.peek() {
        LexSymbol::Integer => {
            let text = lexeme.text();
            match parse_integer(text.as_slice()) {
                Some(n) => {
                    lexeme.advance();
                    Ok(Expression::Number(n))
                },
                None => Err(lexeme.unexpected(LexSymbol::Integer)),
            }
        },
        LexSymbol::String => {
            let text = lexeme.tokens[lexeme.position].value.clone();
            lexeme.advance();
            Ok(Expression::String(text))
        },
        LexSymbol::Identifier => {
            let name = lexeme.tokens[lexeme.position].value.clone();
            lexeme.advance();
            if lexeme.peek() == LexSymbol::GenericOpeningBracket {
                lexeme.advance();
                match parse_arguments(lexeme) {
                    Ok(args) => {
                        proof {
                            lemma_call_view(name, args);
                        }
                        Ok(Expression::FunctionCall { target: name, args })
                    },
                    Err(error) => Err(error),
                }
            } else {
                Ok(Expression::Variable(name))
            }
        },
        _ => Err(lexeme.unexpected(LexSymbol::Identifier)),
    }
}

/// Reads the arguments of a call, from after its opening bracket through
/// its closing bracket.
#[verifier::loop_isolation(false)]
pub fn parse_arguments(lexeme: &mut TokenCursor) -> (result: Result<Vec<Expression>, SyntaxError>)
    ensures
        follows(
            *old(lexeme),
            *final(lexeme),
            result,
            arguments(old(lexeme).stream(), old(lexeme).position as int),
        ),
    decreases remaining(old(lexeme).stream(), old(lexeme).position as int), 8nat,
{
    let mut args: Vec<Expression> = Vec::new();
    if lexeme.peek() == LexSymbol::GenericClosingBracket {
        lexeme.advance();
        assert(args.deep_view() == Seq::<ExpressionView>::empty());
        return Ok(args);
    }
    let ghost tokens = lexeme.stream();
    let ghost start = lexeme.position as int;
    assert(continued(args.deep_view(), 0, argument_list(tokens, start)) == argument_list(
        tokens,
        start,
    )) by {
        assert(args.deep_view() == Seq::<ExpressionView>::empty());
        if let Ok((rest, k)) = argument_list(tokens, start) {
            assert(args.deep_view() + rest == rest);
        }
    }
    loop
        invariant
            lexeme.tokens == old(lexeme).tokens,
            start <= lexeme.position,
            argument_list(tokens, start) == continued(
                args.deep_view(),
                (lexeme.position - start) as nat,
                argument_list(tokens, lexeme.position as int),
            ),
        decreases remaining(tokens, lexeme.position as int),
    {
        let ghost before = args.deep_view();
        let ghost here = lexeme.position as int;
        let value = match parse_expression(lexeme, 0) {
            Ok(value) => value,
            Err(error) => {
                return Err(error);
            },
        };
        args.push(value);
        assert(args.deep_view() == before + seq![value@]);
        let ghost n = (lexeme.position - here) as nat;
        if lexeme.peek() == LexSymbol::Comma {
            lexeme.advance();
            proof {
                if let Ok((rest, k)) = argument_list(tokens, here + n + 1) {
                    assert(before + (seq![value@] + rest) == args.deep_view() + rest);
                }
            }
        } else if lexeme.peek() == LexSymbol::GenericClosingBracket {
            lexeme.advance();
            return Ok(args);
        } else {
            return Err(lexeme.unexpected(LexSymbol::GenericClosingBracket));
        }
    }
}

/// Reads an expression made with operators of precedence `min_precedence`
/// and above, by precedence climbing.
pub fn parse_expression(lexeme: &mut TokenCursor, min_precedence: u8) -> (result: Result<
    Expression,
    SyntaxError,
>)
    ensures
        follows(
            *old(lexeme),
            *final(lexeme),
            result,
            expression(old(lexeme).stream(), old(lexeme).position as int, min_precedence as nat),
        ),
    decreases remaining(old(lexeme).stream(), old(lexeme).position as int), 6nat,
{
    match parse_term(lexeme) {
        Ok(first) => climb(lexeme, first, min_precedence),
        Err(error) => Err(error),
    }
}

/// Joins `left` with the operations that follow, as long as the operator
/// ahead binds at least as tightly as `min_precedence`.
///
/// After each operator one term is read as the right operand. While the
/// operator ahead binds tighter than the one just read, the right operand is
/// grown by climbing from the next higher precedence. An operator of equal
/// precedence does not grow it: it joins the operation just made to what
/// follows, so that equal precedences associate to the left.
#[verifier::loop_isolation(false)]
pub fn climb(lexeme: &mut TokenCursor, left: Expression, min_precedence: u8) -> (result: Result<
    Expression,
    SyntaxError,
>)
    ensures
        follows(
            *old(lexeme),
            *final(lexeme),
            result,
            operations(
                old(lexeme).stream(),
                old(lexeme).position as int,
                left@,
                min_precedence as nat,
            ),
        ),
    decreases remaining(old(lexeme).stream(), old(lexeme).position as int), 5nat,
{
    let ghost tokens = lexeme.stream();
    let ghost start = lexeme.position as int;
    let ghost least = min_precedence as nat;
    let ghost whole = operations(tokens, start, left@, least);
    let mut joined = left;
    loop
        invariant
            lexeme.tokens == old(lexeme).tokens,
            start <= lexeme.position,
            whole == after(
                (lexeme.position - start) as nat,
                operations(tokens, lexeme.position as int, joined@, least),
            ),
        decreases remaining(tokens, lexeme.position as int),
    {
        let ghost here = lexeme.position as int;
        let operator = match lookahead(lexeme) {
            Err(error) => {
                proof {
                    lemma_unknown_operator(tokens, here, joined@, least);
                }
                return Err(error);
            },
            Ok(None) => {
                proof {
                    lemma_settled_stays(tokens, here, joined@, least);
                }
                return Ok(joined);
            },
            Ok(Some(operator)) => operator,
        };
        let precedence = operator.precedence();
        let ghost next = precedence as nat + 1;
        if precedence < min_precedence {
            proof {
                lemma_settled_stays(tokens, here, joined@, least);
            }
            return Ok(joined);
        }
        proof {
            lemma_operations_step(tokens, here, joined@, least);
        }
        lexeme.advance();
        let mut right = match parse_term(lexeme) {
            Ok(right) => right,
            Err(error) => {
                return Err(error);
            },
        };
        let ghost operand = lexeme.position as int;
        let ghost right_side = expression(tokens, here + 1, next);
        let mut climbing = true;
        while climbing
            invariant
                lexeme.tokens == old(lexeme).tokens,
                operand <= lexeme.position,
                right_side == after(
                    (lexeme.position - (here + 1)) as nat,
                    operations(tokens, lexeme.position as int, right@, next),
                ),
                !climbing ==> settled(tokens, lexeme.position as int, next),
            decreases
                    remaining(tokens, lexeme.position as int),
                    if climbing {
                        1nat
                    } else {
                        0nat
                    },
        {
            let ghost reached = lexeme.position as int;
            let ghost operand_so_far = right@;
            match lookahead(lexeme) {
                Err(error) => {
                    proof {
                        lemma_unknown_operator(tokens, reached, right@, next);
                    }
                    return Err(error);
                },
                Ok(Some(tighter)) => {
                    if tighter.precedence() > precedence {
                        proof {
                            lemma_operations_step(tokens, reached, right@, next);
                        }
                        right = match climb(lexeme, right, precedence + 1) {
                            Ok(more) => more,
                            Err(error) => {
                                return Err(error);
                            },
                        };
                        proof {
                            lemma_operations_settle(tokens, reached, operand_so_far, next);
                            lemma_settled_stays(tokens, lexeme.position as int, right@, next);
                        }
                    } else {
                        climbing = false;
                    }
                },
                Ok(None) => {
                    climbing = false;
                },
            }
        }
        proof {
            lemma_settled_stays(tokens, lexeme.position as int, right@, next);
        }
        joined = Expression::Operation {
            left: Box::new(joined),
            operator,
            right: Box::new(right),
        };
    }
}

/// Reads `let` name `=` expression `;`. The next token is the `let`.
fn parse_assignment(lexeme: &mut TokenCursor) -> (result: Result<Statement, SyntaxError>)
    requires
        old(lexeme).position < old(lexeme).tokens@.len(),
    ensures
        follows(
            *old(lexeme),
            *final(lexeme),
            result,
            assignment(old(lexeme).stream(), old(lexeme).position as int),
        ),
{
    lexeme.advance();
    let name = match expect(LexSymbol::Identifier, lexeme) {
        Ok(name) => name,
        Err(error) => {
            return Err(error);
        },
    };
    match expect(LexSymbol::EqualSign, lexeme) {
        Ok(_) => {},
        Err(error) => {
            return Err(error);
        },
    }
    let value = match parse_expression(lexeme, 0) {
        Ok(value) => value,
        Err(error) => {
            return Err(error);
        },
    };
    match expect(LexSymbol::EndOfStatement, lexeme) {
        Ok(_) => Ok(Statement::VariableAssignment { name, value }),
        Err(error) => Err(error),
    }
}

/// Reads `call` name `(` arguments `)` `;`. The next token is the `call`.
fn parse_call(lexeme: &mut TokenCursor) -> (result: Result<Statement, SyntaxError>)
    requires
        old(lexeme).position < old(lexeme).tokens@.len(),
    ensures
        follows(
            *old(lexeme),
            *final(lexeme),
            result,
            call(old(lexeme).stream(), old(lexeme).position as int),
        ),
{
    lexeme.advance();
    let target = match expect(LexSymbol::Identifier, lexeme) {
        Ok(target) => target,
        Err(error) => {
            return Err(error);
        },
    };
    match expect(LexSymbol::GenericOpeningBracket, lexeme) {
        Ok(_) => {},
        Err(error) => {
            return Err(error);
        },
    }
    let args = match parse_arguments(lexeme) {
        Ok(args) => args,
        Err(error) => {
            return Err(error);
        },
    };
    proof {
        lemma_call_view(target, args);
    }
    match expect(LexSymbol::EndOfStatement, lexeme) {
        Ok(_) => Ok(Statement::ExpressionStatement(Expression::FunctionCall { target, args })),
        Err(error) => Err(error),
    }
}

/// Reads `return` expression `;`. The next token is the `return`.
fn parse_return(lexeme: &mut TokenCursor) -> (result: Result<Statement, SyntaxError>)
    requires
        old(lexeme).position < old(lexeme).tokens@.len(),
    ensures
        follows(
            *old(lexeme),
            *final(lexeme),
            result,
            returning(old(lexeme).stream(), old(lexeme).position as int),
        ),
{
    lexeme.advance();
    let value = match parse_expression(lexeme, 0) {
        Ok(value) => value,
        Err(error) => {
            return Err(error);
        },
    };
    match expect(LexSymbol::EndOfStatement, lexeme) {
        Ok(_) => Ok(Statement::ExpressionStatement(value)),
        Err(error) => Err(error),
    }
}

/// Reads `(` expression `)`.
fn parse_condition(lexeme: &mut TokenCursor) -> (result: Result<Expression, SyntaxError>)
    ensures
        follows(
            *old(lexeme),
            *final(lexeme),
            result,
            condition(old(lexeme).stream(), old(lexeme).position as int),
        ),
{
    match expect(LexSymbol::GenericOpeningBracket, lexeme) {
        Ok(_) => {},
        Err(error) => {
            return Err(error);
        },
    }
    let value = match parse_expression(lexeme, 0) {
        Ok(value) => value,
        Err(error) => {
            return Err(error);
        },
    };
    match expect(LexSymbol::GenericClosingBracket, lexeme) {
        Ok(_) => Ok(value),
        Err(error) => Err(error),
    }
}

/// Reads `{` statements `}`. Where the tokens end before the body is
/// closed, the body ends with them.
fn parse_body(lexeme: &mut TokenCursor) -> (result: Result<Vec<Statement>, SyntaxError>)
    ensures
        follows(
            *old(lexeme),
            *final(lexeme),
            result,
            body(old(lexeme).stream(), old(lexeme).position as int),
        ),
    decreases remaining(old(lexeme).stream(), old(lexeme).position as int), 0nat,
{
    match expect(LexSymbol::BlockOpeningBracket, lexeme) {
        Ok(_) => {},
        Err(error) => {
            return Err(error);
        },
    }
    let statements = match parse_block(LexSymbol::BlockClosingBracket, lexeme) {
        Ok(statements) => statements,
        Err(error) => {
            return Err(error);
        },
    };
    if lexeme.peek() == LexSymbol::BlockClosingBracket {
        lexeme.advance();
    }
    Ok(statements)
}

/// Reads `function` name `(` arguments `)` body. The next token is the
/// `function` or `fn`.
fn parse_definition(lexeme: &mut TokenCursor) -> (result: Result<Statement, SyntaxError>)
    requires
        old(lexeme).position < old(lexeme).tokens@.len(),
    ensures
        follows(
            *old(lexeme),
            *final(lexeme),
            result,
            definition(old(lexeme).stream(), old(lexeme).position as int),
        ),
    decreases remaining(old(lexeme).stream(), old(lexeme).position as int), 1nat,
{
    lexeme.advance();
    let name = match expect(LexSymbol::Identifier, lexeme) {
        Ok(name) => name,
        Err(error) => {
            return Err(error);
        },
    };
    match expect(LexSymbol::GenericOpeningBracket, lexeme) {
        Ok(_) => {},
        Err(error) => {
            return Err(error);
        },
    }
    let arguments = match parse_arguments(lexeme) {
        Ok(arguments) => arguments,
        Err(error) => {
            return Err(error);
        },
    };
    match parse_body(lexeme) {
        Ok(body) => {
            proof {
                lemma_body_view(body);
            }
            Ok(Statement::FunctionAssignment { name, arguments, body })
        },
        Err(error) => Err(error),
    }
}

/// Reads an `if` or a `while`, as `word` says: the keyword, a condition in
/// round brackets, and a body. The next token is the keyword.
fn parse_guarded(lexeme: &mut TokenCursor, word: Keyword) -> (result: Result<
    Statement,
    SyntaxError,
>)
    requires
        old(lexeme).position < old(lexeme).tokens@.len(),
    ensures
        follows(
            *old(lexeme),
            *final(lexeme),
            result,
            guarded(old(lexeme).stream(), old(lexeme).position as int, word),
        ),
    decreases remaining(old(lexeme).stream(), old(lexeme).position as int), 1nat,
{
    lexeme.advance();
    let condition = match parse_condition(lexeme) {
        Ok(condition) => condition,
        Err(error) => {
            return Err(error);
        },
    };
    match parse_body(lexeme) {
        Ok(body) => {
            proof {
                lemma_body_view(body);
            }
            if word == Keyword::While {
                Ok(Statement::While { condition, body })
            } else {
                Ok(Statement::ConditionalStatement { condition, body })
            }
        },
        Err(error) => Err(error),
    }
}

/// Reads one statement, chosen by its first token. A statement terminator
/// alone is read and gives `None`.
pub fn parse_statement(lexeme: &mut TokenCursor) -> (result: Result<Option<Statement>, SyntaxError>)
    ensures
        follows(
            *old(lexeme),
            *final(lexeme),
            result,
            statement(old(lexeme).stream(), old(lexeme).position as int),
        ),
    decreases remaining(old(lexeme).stream(), old(lexeme).position as int), 2nat,
{
    match lexeme.peek() {
        LexSymbol::EndOfStatement => {
            lexeme.advance();
            Ok(None)
        },
        LexSymbol::Keyword => {
            let text = lexeme.text();
            let formed = match find_keyword(text.as_slice()) {
                Some(Keyword::Let) => parse_assignment(lexeme),
                Some(Keyword::Function) => parse_definition(lexeme),
                Some(Keyword::Call) => parse_call(lexeme),
                Some(Keyword::Return) => parse_return(lexeme),
                Some(Keyword::If) => parse_guarded(lexeme, Keyword::If),
                Some(Keyword::While) => parse_guarded(lexeme, Keyword::While),
                None => Err(lexeme.unexpected(LexSymbol::Keyword)),
            };
            match formed {
                Ok(value) => Ok(Some(value)),
                Err(error) => Err(error),
            }
        },
        _ => Err(lexeme.unexpected(LexSymbol::Keyword)),
    }
}

/// Reads statements until the next token is of the kind `stop_symbol` or the
/// tokens end. The stopping token is not read.
#[verifier::loop_isolation(false)]
pub fn parse_block(stop_symbol: LexSymbol, lexeme: &mut TokenCursor) -> (result: Result<
    Vec<Statement>,
    SyntaxError,
>)
    ensures
        follows(
            *old(lexeme),
            *final(lexeme),
            result,
            block(old(lexeme).stream(), old(lexeme).position as int, stop_symbol),
        ),
    decreases remaining(old(lexeme).stream(), old(lexeme).position as int), 3nat,
{
    let ghost tokens = lexeme.stream();
    let ghost start = lexeme.position as int;
    let mut statements: Vec<Statement> = Vec::new();
    assert(continued(statements.deep_view(), 0, block(tokens, start, stop_symbol)) == block(
        tokens,
        start,
        stop_symbol,
    )) by {
        assert(statements.deep_view() == Seq::<StatementView>::empty());
        if let Ok((rest, k)) = block(tokens, start, stop_symbol) {
            assert(statements.deep_view() + rest == rest);
        }
    }
    loop
        invariant
            lexeme.tokens == old(lexeme).tokens,
            start <= lexeme.position,
            block(tokens, start, stop_symbol) == continued(
                statements.deep_view(),
                (lexeme.position - start) as nat,
                block(tokens, lexeme.position as int, stop_symbol),
            ),
        decreases remaining(tokens, lexeme.position as int),
    {
        let ghost before = statements.deep_view();
        let ghost here = lexeme.position as int;
        let next = lexeme.peek();
        if next == stop_symbol || next == LexSymbol::EndOfStream {
            assert(statements.deep_view() + Seq::<StatementView>::empty()
                == statements.deep_view());
            return Ok(statements);
        }
        proof {
            if statement(tokens, here) is Ok {
                lemma_statement_spans(tokens, here);
            }
        }
        match parse_statement(lexeme) {
            Err(error) => {
                return Err(error);
            },
            Ok(Some(value)) => {
                statements.push(value);
                proof {
                    assert(statements.deep_view() == before + seq![value@]);
                    if let Ok((rest, k)) = block(tokens, lexeme.position as int, stop_symbol) {
                        assert(before + (seq![value@] + rest) == statements.deep_view() + rest);
                    }
                }
            },
            Ok(None) => {},
        }
    }
}

/// Parses a whole program: the statements of `lexemevector` in their order,
/// or the error of the first token that does not fit. After an error
/// nothing more is read, and no statement is returned.
pub fn parser(lexemevector: Vec<Lexeme>) -> (result: Result<Vec<Statement>, SyntaxError>)
    ensures
        match program(lexemevector.deep_view()) {
            Ok(statements) => result matches Ok(read) && read.deep_view() == statements,
            Err(error) => result == Err::<Vec<Statement>, SyntaxError>(error),
        },
{
    let mut lexeme = TokenCursor::new(lexemevector.as_slice());
    assert(lexeme.stream() == lexemevector.deep_view());
    parse_block(LexSymbol::EndOfStream, &mut lexeme)
}

} // verus!
