//! Why a parser that climbs precedences reads expressions as the grammar
//! defines them.
//!
//! The grammar joins operations level by level. A climbing parser goes
//! through the tokens once and decides at each operator, from its precedence
//! alone, how far the right operand reaches. The lemmas here say what the
//! grammar gives at such an operator, in the terms in which the parser goes
//! on.

use crate::ast::{ExpressionView, HIGHEST_PRECEDENCE};
use crate::grammar::{after, chain, expression, operations, operator_at, remaining, term};
use crate::lexer::Token;
use vstd::prelude::*;

verus! {

/// Nothing at `position` is left to join at precedence `level` or above:
/// there is no operator, or one that binds less tightly.
pub open spec fn settled(tokens: Seq<Token>, position: int, level: nat) -> bool {
    match operator_at(tokens, position) {
        Ok(None) => true,
        Ok(Some(operator)) => operator.level() < level,
        Err(_) => false,
    }
}

/// Where nothing is left to join, the operand stays as it is.
pub proof fn lemma_settled_stays(
    tokens: Seq<Token>,
    position: int,
    left: ExpressionView,
    level: nat,
)
    requires
        settled(tokens, position, level),
    ensures
        operations(tokens, position, left, level) == Ok::<_, crate::parser::SyntaxError>(
            (left, 0nat),
        ),
    decreases HIGHEST_PRECEDENCE + 1 - level,
{
    if level <= HIGHEST_PRECEDENCE {
        lemma_settled_stays(tokens, position, left, level + 1);
        assert(operations(tokens, position, left, level) == after(
            0nat,
            chain(tokens, position + 0nat, left, level),
        ));
    }
}

/// An operator token that the table does not hold is an error at every
/// precedence.
pub proof fn lemma_unknown_operator(
    tokens: Seq<Token>,
    position: int,
    left: ExpressionView,
    level: nat,
)
    requires
        operator_at(tokens, position) is Err,
    ensures
        operations(tokens, position, left, level) == Err::<(ExpressionView, nat), _>(
            operator_at(tokens, position)->Err_0,
        ),
    decreases HIGHEST_PRECEDENCE + 1 - level,
{
    if level <= HIGHEST_PRECEDENCE {
        lemma_unknown_operator(tokens, position, left, level + 1);
    }
}

/// After the operations of some precedence and above have been joined,
/// nothing is left to join at that precedence.
pub proof fn lemma_operations_settle(
    tokens: Seq<Token>,
    position: int,
    left: ExpressionView,
    level: nat,
)
    requires
        operations(tokens, position, left, level) is Ok,
    ensures
        settled(tokens, position + operations(tokens, position, left, level)->Ok_0.1, level),
    decreases remaining(tokens, position), 2 + if level <= HIGHEST_PRECEDENCE {
        HIGHEST_PRECEDENCE + 1 - level
    } else {
        0
    },
{
    if level <= HIGHEST_PRECEDENCE {
        lemma_operations_settle(tokens, position, left, level + 1);
        let (tighter, n) = operations(tokens, position, left, level + 1)->Ok_0;
        lemma_chain_settles(tokens, position + n, tighter, level);
    }
}

/// After a chain of some precedence, nothing is left to join at that
/// precedence, if nothing was left above it before.
pub proof fn lemma_chain_settles(
    tokens: Seq<Token>,
    position: int,
    left: ExpressionView,
    level: nat,
)
    requires
        settled(tokens, position, level + 1),
        chain(tokens, position, left, level) is Ok,
    ensures
        settled(tokens, position + chain(tokens, position, left, level)->Ok_0.1, level),
    decreases remaining(tokens, position), 1nat,
{
    if let Ok(Some(operator)) = operator_at(tokens, position) {
        if operator.level() == level {
            lemma_expression_settles(tokens, position + 1, level + 1);
            let (right, n) = expression(tokens, position + 1, level + 1)->Ok_0;
            let joined = ExpressionView::Operation {
                left: Box::new(left),
                operator,
                right: Box::new(right),
            };
            lemma_chain_settles(tokens, position + 1 + n, joined, level);
        }
    }
}

/// After an expression of some precedence, nothing is left to join at that
/// precedence.
pub proof fn lemma_expression_settles(tokens: Seq<Token>, position: int, level: nat)
    requires
        expression(tokens, position, level) is Ok,
    ensures
        settled(tokens, position + expression(tokens, position, level)->Ok_0.1, level),
    decreases remaining(tokens, position), 6nat,
{
    let (first, n) = term(tokens, position)->Ok_0;
    lemma_operations_settle(tokens, position + n, first, level);
}

/// At an operator that binds at least as tightly as `min_precedence`, the
/// operations to join are: that operator, with the expression of the next
/// higher precedence as its right operand, and then whatever follows.
pub proof fn lemma_operations_step(
    tokens: Seq<Token>,
    position: int,
    left: ExpressionView,
    min_precedence: nat,
)
    requires
        operator_at(tokens, position) matches Ok(Some(operator)) && min_precedence
            <= operator.level(),
    ensures
        operations(tokens, position, left, min_precedence) == ({
            let operator = operator_at(tokens, position)->Ok_0->Some_0;
            match expression(tokens, position + 1, operator.level() + 1) {
                Err(error) => Err(error),
                Ok((right, n)) => after(
                    1 + n,
                    operations(
                        tokens,
                        position + 1 + n,
                        ExpressionView::Operation {
                            left: Box::new(left),
                            operator,
                            right: Box::new(right),
                        },
                        min_precedence,
                    ),
                ),
            }
        }),
    decreases operator_at(tokens, position)->Ok_0->Some_0.level() - min_precedence,
{
    let operator = operator_at(tokens, position)->Ok_0->Some_0;
    let level = operator.level();
    let right_side = expression(tokens, position + 1, level + 1);
    if min_precedence == level {
        lemma_settled_stays(tokens, position, left, level + 1);
        assert(operations(tokens, position, left, level) == after(
            0nat,
            chain(tokens, position + 0nat, left, level),
        ));
        if let Ok((right, n)) = right_side {
            let joined = ExpressionView::Operation {
                left: Box::new(left),
                operator,
                right: Box::new(right),
            };
            let next = position + 1 + n;
            lemma_expression_settles(tokens, position + 1, level + 1);
            lemma_settled_stays(tokens, next, joined, level + 1);
            assert(operations(tokens, next, joined, level) == after(
                0nat,
                chain(tokens, next + 0nat, joined, level),
            ));
        }
    } else {
        lemma_operations_step(tokens, position, left, min_precedence + 1);
        if let Ok((right, n)) = right_side {
            let joined = ExpressionView::Operation {
                left: Box::new(left),
                operator,
                right: Box::new(right),
            };
            let next = position + 1 + n;
            let above = operations(tokens, next, joined, min_precedence + 1);
            assert(operations(tokens, position, left, min_precedence + 1) == after(1 + n, above));
            if let Ok((tighter, k)) = above {
                assert(operations(tokens, next, joined, min_precedence) == after(
                    k,
                    chain(tokens, next + k, tighter, min_precedence),
                ));
                assert(operations(tokens, position, left, min_precedence) == after(
                    1 + n + k,
                    chain(tokens, position + (1 + n + k), tighter, min_precedence),
                ));
            }
        }
    }
}

} // verus!
