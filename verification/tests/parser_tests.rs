use frontend::ast::{Expression, Operator, Statement};
use frontend::lexer::{lexer, LexSymbol, Lexeme, Location};
use frontend::parser::{
    climb, expect, lookahead, parse_arguments, parse_block, parse_expression, parse_integer,
    parse_operator, parse_statement, parse_term, parser, SyntaxError, TokenCursor,
};

fn num(n: i64) -> Expression {
    Expression::Number(n)
}

fn var(name: &str) -> Expression {
    Expression::Variable(name.to_string())
}

fn text(value: &str) -> Expression {
    Expression::String(value.to_string())
}

fn op(left: Expression, operator: Operator, right: Expression) -> Expression {
    Expression::Operation { left: Box::new(left), operator, right: Box::new(right) }
}

fn call(target: &str, args: Vec<Expression>) -> Expression {
    Expression::FunctionCall { target: target.to_string(), args }
}

fn error(expected: LexSymbol, found: LexSymbol, line: usize, column: usize) -> SyntaxError {
    SyntaxError { expected, found, location: Location { line, column } }
}

/// Parses the whole of `source` as one expression and says how many tokens it took.
fn expression(source: &str) -> (Result<Expression, SyntaxError>, usize) {
    let tokens = lexer(source);
    let mut cursor = TokenCursor::new(&tokens);
    let result = parse_expression(&mut cursor, 0);
    (result, cursor.position)
}

fn digits(source: &str) -> Option<i64> {
    let chars: Vec<char> = source.chars().collect();
    parse_integer(&chars)
}

#[test]
fn round_trip_precedence() {
    assert_eq!(
        expression("1 + 2 * 3"),
        (Ok(op(num(1), Operator::Add, op(num(2), Operator::Mul, num(3)))), 5)
    );
    assert_eq!(
        expression("1 * 2 + 3"),
        (Ok(op(op(num(1), Operator::Mul, num(2)), Operator::Add, num(3))), 5)
    );
}

#[test]
fn left_associativity() {
    assert_eq!(
        expression("1 - 2 - 3"),
        (Ok(op(op(num(1), Operator::Sub, num(2)), Operator::Sub, num(3))), 5)
    );
    assert_eq!(
        expression("8 / 4 / 2"),
        (Ok(op(op(num(8), Operator::Div, num(4)), Operator::Div, num(2))), 5)
    );
    assert_eq!(
        expression("1 < 2 < 3"),
        (Ok(op(op(num(1), Operator::LessThan, num(2)), Operator::LessThan, num(3))), 5)
    );
}

#[test]
fn comparison_vs_arithmetic() {
    assert_eq!(
        expression("1 + 2 > 3"),
        (Ok(op(op(num(1), Operator::Add, num(2)), Operator::GreaterThan, num(3))), 5)
    );
    assert_eq!(
        expression("1 > 2 + 3"),
        (Ok(op(num(1), Operator::GreaterThan, op(num(2), Operator::Add, num(3)))), 5)
    );
}

#[test]
fn call_parsing() {
    assert_eq!(expression("foo(1, 2, 3)"), (Ok(call("foo", vec![num(1), num(2), num(3)])), 8));
    assert_eq!(expression("foo()"), (Ok(call("foo", vec![])), 3));
}

#[test]
fn statement_round_trip() {
    let tokens = lexer("let x = 5;");
    let mut cursor = TokenCursor::new(&tokens);
    assert_eq!(
        parse_statement(&mut cursor),
        Ok(Some(Statement::VariableAssignment { name: "x".to_string(), value: num(5) }))
    );
    assert_eq!(cursor.position, 5);
    assert_eq!(
        parser(lexer("let x = 5;")),
        Ok(vec![Statement::VariableAssignment { name: "x".to_string(), value: num(5) }])
    );
}

#[test]
fn nested_blocks() {
    let source = "while (x < 10) { let x = x + 1; }";
    let statements = parser(lexer(source)).unwrap();
    assert_eq!(statements.len(), 1);
    match &statements[0] {
        Statement::While { condition, body } => {
            assert_eq!(body.len(), 1);
            assert_eq!(*condition, expression("x < 10").0.unwrap());
            assert_eq!(*body, parser(lexer("let x = x + 1;")).unwrap());
        },
        other => panic!("not a while: {:?}", other),
    }
    assert_eq!(
        statements,
        vec![Statement::While {
            condition: op(var("x"), Operator::LessThan, num(10)),
            body: vec![Statement::VariableAssignment {
                name: "x".to_string(),
                value: op(var("x"), Operator::Add, num(1)),
            }],
        }]
    );
}

#[test]
fn error_locality() {
    assert_eq!(
        parser(lexer("let x 5;")),
        Err(error(LexSymbol::EqualSign, LexSymbol::Integer, 1, 7))
    );
}

#[test]
fn all_levels_in_one_expression() {
    // 1 + 2 * 3 - 4 / 5 == 6 < 7
    let sum = op(
        op(num(1), Operator::Add, op(num(2), Operator::Mul, num(3))),
        Operator::Sub,
        op(num(4), Operator::Div, num(5)),
    );
    let expected = op(op(sum, Operator::Equal, num(6)), Operator::LessThan, num(7));
    assert_eq!(expression("1 + 2 * 3 - 4 / 5 == 6 < 7"), (Ok(expected), 13));
}

#[test]
fn a_tighter_operator_after_a_looser_right_operand() {
    // a < b + c * d - e
    let right = op(
        op(var("b"), Operator::Add, op(var("c"), Operator::Mul, var("d"))),
        Operator::Sub,
        var("e"),
    );
    assert_eq!(
        expression("a < b + c * d - e"),
        (Ok(op(var("a"), Operator::LessThan, right)), 9)
    );
}

#[test]
fn every_operator_is_read() {
    let cases = [
        ("a + b", Operator::Add),
        ("a - b", Operator::Sub),
        ("a * b", Operator::Mul),
        ("a / b", Operator::Div),
        ("a < b", Operator::LessThan),
        ("a > b", Operator::GreaterThan),
        ("a <= b", Operator::LessOrEqual),
        ("a >= b", Operator::GreaterOrEqual),
        ("a == b", Operator::Equal),
        ("a != b", Operator::NotEqual),
    ];
    for (source, operator) in cases {
        assert_eq!(expression(source), (Ok(op(var("a"), operator, var("b"))), 3));
    }
}

#[test]
fn terms() {
    assert_eq!(expression("42"), (Ok(num(42)), 1));
    assert_eq!(expression("\"hi there\""), (Ok(text("hi there")), 1));
    assert_eq!(expression("abc"), (Ok(var("abc")), 1));
    assert_eq!(expression("007"), (Ok(num(7)), 1));
    assert_eq!(expression("9223372036854775807"), (Ok(num(i64::MAX)), 1));
}

#[test]
fn an_expression_stops_before_what_does_not_belong_to_it() {
    assert_eq!(expression("a b"), (Ok(var("a")), 1));
    assert_eq!(expression("a ; b"), (Ok(var("a")), 1));
    assert_eq!(expression("a = b"), (Ok(var("a")), 1));
    assert_eq!(expression("f (1) (2)"), (Ok(call("f", vec![num(1)])), 4));
}

#[test]
fn a_minimum_precedence_leaves_looser_operators_unread() {
    let tokens = lexer("1 * 2 + 3");
    let mut cursor = TokenCursor::new(&tokens);
    assert_eq!(parse_expression(&mut cursor, 2), Ok(op(num(1), Operator::Mul, num(2))));
    assert_eq!(cursor.position, 3);

    let mut cursor = TokenCursor::new(&tokens);
    assert_eq!(parse_expression(&mut cursor, 3), Ok(num(1)));
    assert_eq!(cursor.position, 1);

    let tokens = lexer("1 + 2 < 3");
    let mut cursor = TokenCursor::new(&tokens);
    assert_eq!(parse_expression(&mut cursor, 1), Ok(op(num(1), Operator::Add, num(2))));
    assert_eq!(cursor.position, 3);
}

#[test]
fn climb_joins_to_a_given_left_operand() {
    let tokens = lexer("* 2 + 3 * 4 < 5");
    let mut cursor = TokenCursor::new(&tokens);
    assert_eq!(
        climb(&mut cursor, var("x"), 1),
        Ok(op(
            op(var("x"), Operator::Mul, num(2)),
            Operator::Add,
            op(num(3), Operator::Mul, num(4))
        ))
    );
    assert_eq!(cursor.position, 6);

    let mut cursor = TokenCursor::new(&tokens);
    cursor.position = 2;
    assert_eq!(climb(&mut cursor, var("x"), 2), Ok(var("x")));
    assert_eq!(cursor.position, 2);
}

#[test]
fn nested_calls_and_expressions_as_arguments() {
    assert_eq!(
        expression("f(g(1), a + b * 2, \"s\")"),
        (
            Ok(call(
                "f",
                vec![
                    call("g", vec![num(1)]),
                    op(var("a"), Operator::Add, op(var("b"), Operator::Mul, num(2))),
                    text("s"),
                ]
            )),
            15
        )
    );
    assert_eq!(
        expression("f(1) + g(2) * 3"),
        (
            Ok(op(
                call("f", vec![num(1)]),
                Operator::Add,
                op(call("g", vec![num(2)]), Operator::Mul, num(3))
            )),
            11
        )
    );
}

#[test]
fn parse_arguments_reads_through_the_closing_bracket() {
    let tokens = lexer("1, x) + 2");
    let mut cursor = TokenCursor::new(&tokens);
    assert_eq!(parse_arguments(&mut cursor), Ok(vec![num(1), var("x")]));
    assert_eq!(cursor.position, 4);

    let tokens = lexer(") 1");
    let mut cursor = TokenCursor::new(&tokens);
    assert_eq!(parse_arguments(&mut cursor), Ok(vec![]));
    assert_eq!(cursor.position, 1);
}

#[test]
fn argument_errors() {
    // a comma must be followed by an expression
    assert_eq!(
        expression("f(1,)"),
        (Err(error(LexSymbol::Identifier, LexSymbol::GenericClosingBracket, 1, 5)), 4)
    );
    // an argument must be followed by a comma or the closing bracket
    assert_eq!(
        expression("f(1 2)"),
        (Err(error(LexSymbol::GenericClosingBracket, LexSymbol::Integer, 1, 5)), 3)
    );
    // the list must be closed
    assert_eq!(
        expression("f(1"),
        (Err(error(LexSymbol::GenericClosingBracket, LexSymbol::EndOfStream, 1, 3)), 3)
    );
    assert_eq!(
        expression("f("),
        (Err(error(LexSymbol::Identifier, LexSymbol::EndOfStream, 1, 2)), 2)
    );
    // a leading comma is no expression
    assert_eq!(
        expression("f(,1)"),
        (Err(error(LexSymbol::Identifier, LexSymbol::Comma, 1, 3)), 2)
    );
}

#[test]
fn what_cannot_start_an_expression() {
    assert_eq!(expression(""), (Err(error(LexSymbol::Identifier, LexSymbol::EndOfStream, 1, 1)), 0));
    assert_eq!(
        expression("+ 1"),
        (Err(error(LexSymbol::Identifier, LexSymbol::OperationalSymbol, 1, 1)), 0)
    );
    assert_eq!(
        expression("(1)"),
        (Err(error(LexSymbol::Identifier, LexSymbol::GenericOpeningBracket, 1, 1)), 0)
    );
    assert_eq!(
        expression("let"),
        (Err(error(LexSymbol::Identifier, LexSymbol::Keyword, 1, 1)), 0)
    );
    assert_eq!(
        expression("1 +"),
        (Err(error(LexSymbol::Identifier, LexSymbol::EndOfStream, 1, 3)), 2)
    );
    assert_eq!(
        expression("1 + * 2"),
        (Err(error(LexSymbol::Identifier, LexSymbol::OperationalSymbol, 1, 5)), 2)
    );
}

#[test]
fn an_integer_literal_must_be_a_number_that_fits() {
    assert_eq!(expression("1.2.3"), (Err(error(LexSymbol::Integer, LexSymbol::Integer, 1, 1)), 0));
    assert_eq!(expression("1."), (Err(error(LexSymbol::Integer, LexSymbol::Integer, 1, 1)), 0));
    assert_eq!(
        expression("9223372036854775808"),
        (Err(error(LexSymbol::Integer, LexSymbol::Integer, 1, 1)), 0)
    );
    assert_eq!(
        expression("x + 1.5"),
        (Err(error(LexSymbol::Integer, LexSymbol::Integer, 1, 5)), 2)
    );
}

#[test]
fn parse_integer_reads_decimal_digits() {
    assert_eq!(digits("0"), Some(0));
    assert_eq!(digits("5"), Some(5));
    assert_eq!(digits("1234567890"), Some(1234567890));
    assert_eq!(digits("000012"), Some(12));
    assert_eq!(digits("9223372036854775807"), Some(9223372036854775807));
    assert_eq!(digits("09223372036854775807"), Some(9223372036854775807));
    assert_eq!(digits("9223372036854775808"), None);
    assert_eq!(digits("92233720368547758070"), None);
    assert_eq!(digits("99999999999999999999999999"), None);
    assert_eq!(digits(""), None);
    assert_eq!(digits("1.5"), None);
    assert_eq!(digits("12a"), None);
    assert_eq!(digits("-1"), None);
    assert_eq!(digits("+1"), None);
    assert_eq!(digits(" 1"), None);
    assert_eq!(digits("\u{661}"), None);
    assert_eq!(digits("99999999999999999999x"), None);
}

#[test]
fn an_operator_that_the_table_does_not_hold() {
    let tokens = vec![
        Lexeme::new(LexSymbol::Integer, "1".to_string()).at(1, 1),
        Lexeme::new(LexSymbol::OperationalSymbol, "%".to_string()).at(1, 3),
        Lexeme::new(LexSymbol::Integer, "2".to_string()).at(1, 5),
    ];
    let unknown = error(LexSymbol::OperationalSymbol, LexSymbol::OperationalSymbol, 1, 3);

    let mut cursor = TokenCursor::new(&tokens);
    assert_eq!(parse_expression(&mut cursor, 0), Err(unknown));
    assert_eq!(cursor.position, 1);

    // even where no operator could be joined
    let mut cursor = TokenCursor::new(&tokens);
    assert_eq!(parse_expression(&mut cursor, 3), Err(unknown));

    let mut cursor = TokenCursor::new(&tokens);
    cursor.position = 1;
    assert_eq!(lookahead(&cursor), Err(unknown));
    assert_eq!(parse_operator(&mut cursor), Err(unknown));
    assert_eq!(cursor.position, 1);

    // after a tighter right operand too
    let tokens = vec![
        Lexeme::new(LexSymbol::Integer, "1".to_string()).at(1, 1),
        Lexeme::new(LexSymbol::OperationalSymbol, "+".to_string()).at(1, 3),
        Lexeme::new(LexSymbol::Integer, "2".to_string()).at(1, 5),
        Lexeme::new(LexSymbol::OperationalSymbol, "=".to_string()).at(1, 7),
    ];
    let mut cursor = TokenCursor::new(&tokens);
    assert_eq!(
        parse_expression(&mut cursor, 0),
        Err(error(LexSymbol::OperationalSymbol, LexSymbol::OperationalSymbol, 1, 7))
    );
    assert_eq!(cursor.position, 3);
}

#[test]
fn lookahead_reads_nothing() {
    let tokens = lexer("<= x");
    let mut cursor = TokenCursor::new(&tokens);
    assert_eq!(lookahead(&cursor), Ok(Some(Operator::LessOrEqual)));
    assert_eq!(cursor.position, 0);
    cursor.position = 1;
    assert_eq!(lookahead(&cursor), Ok(None));
    cursor.position = 2;
    assert_eq!(lookahead(&cursor), Ok(None));
    cursor.position = 7;
    assert_eq!(lookahead(&cursor), Ok(None));
}

#[test]
fn parse_operator_reads_one_operator() {
    let tokens = lexer("!= x");
    let mut cursor = TokenCursor::new(&tokens);
    assert_eq!(parse_operator(&mut cursor), Ok(Operator::NotEqual));
    assert_eq!(cursor.position, 1);
    assert_eq!(
        parse_operator(&mut cursor),
        Err(error(LexSymbol::OperationalSymbol, LexSymbol::Identifier, 1, 4))
    );
    assert_eq!(cursor.position, 1);
    cursor.position = 2;
    assert_eq!(
        parse_operator(&mut cursor),
        Err(error(LexSymbol::OperationalSymbol, LexSymbol::EndOfStream, 1, 4))
    );
    assert_eq!(cursor.position, 2);
}

#[test]
fn parse_term_reads_one_term() {
    let tokens = lexer("7 + 1");
    let mut cursor = TokenCursor::new(&tokens);
    assert_eq!(parse_term(&mut cursor), Ok(num(7)));
    assert_eq!(cursor.position, 1);
    assert_eq!(
        parse_term(&mut cursor),
        Err(error(LexSymbol::Identifier, LexSymbol::OperationalSymbol, 1, 3))
    );
    assert_eq!(cursor.position, 1);

    let tokens = lexer("f(x) y");
    let mut cursor = TokenCursor::new(&tokens);
    assert_eq!(parse_term(&mut cursor), Ok(call("f", vec![var("x")])));
    assert_eq!(cursor.position, 4);
    assert_eq!(parse_term(&mut cursor), Ok(var("y")));
    assert_eq!(cursor.position, 5);
}

#[test]
fn expect_reads_the_expected_token_only() {
    let tokens = lexer("x = 1");
    let mut cursor = TokenCursor::new(&tokens);
    assert_eq!(expect(LexSymbol::Identifier, &mut cursor), Ok("x".to_string()));
    assert_eq!(cursor.position, 1);
    assert_eq!(
        expect(LexSymbol::Identifier, &mut cursor),
        Err(error(LexSymbol::Identifier, LexSymbol::EqualSign, 1, 3))
    );
    assert_eq!(cursor.position, 1);
    assert_eq!(expect(LexSymbol::EqualSign, &mut cursor), Ok("=".to_string()));
    assert_eq!(expect(LexSymbol::Integer, &mut cursor), Ok("1".to_string()));
    assert_eq!(cursor.position, 3);
    // at the end nothing is found, whatever is expected
    assert_eq!(
        expect(LexSymbol::EndOfStatement, &mut cursor),
        Err(error(LexSymbol::EndOfStatement, LexSymbol::EndOfStream, 1, 5))
    );
    assert_eq!(
        expect(LexSymbol::EndOfStream, &mut cursor),
        Err(error(LexSymbol::EndOfStream, LexSymbol::EndOfStream, 1, 5))
    );
    assert_eq!(cursor.position, 3);
}

#[test]
fn cursor_peek_and_location() {
    let tokens = lexer("a\n  ;");
    let mut cursor = TokenCursor::new(&tokens);
    assert_eq!(cursor.position, 0);
    assert_eq!(cursor.peek(), LexSymbol::Identifier);
    assert_eq!(cursor.location(), Location { line: 1, column: 1 });
    cursor.position = 1;
    assert_eq!(cursor.peek(), LexSymbol::EndOfStatement);
    assert_eq!(cursor.location(), Location { line: 2, column: 3 });
    cursor.position = 2;
    assert_eq!(cursor.peek(), LexSymbol::EndOfStream);
    assert_eq!(cursor.location(), Location { line: 2, column: 3 });
    assert_eq!(
        cursor.unexpected(LexSymbol::Comma),
        error(LexSymbol::Comma, LexSymbol::EndOfStream, 2, 3)
    );

    let none: Vec<Lexeme> = vec![];
    let cursor = TokenCursor::new(&none);
    assert_eq!(cursor.peek(), LexSymbol::EndOfStream);
    assert_eq!(cursor.location(), Location { line: 1, column: 1 });
}

#[test]
fn an_empty_program() {
    assert_eq!(parser(vec![]), Ok(vec![]));
    assert_eq!(parser(lexer("  \n ")), Ok(vec![]));
}

#[test]
fn empty_statements_leave_no_trace() {
    assert_eq!(parser(lexer(";;;")), Ok(vec![]));
    assert_eq!(
        parser(lexer("; return 1; ; ;return 2;;")),
        Ok(vec![Statement::ExpressionStatement(num(1)), Statement::ExpressionStatement(num(2))])
    );
    let tokens = lexer("; let");
    let mut cursor = TokenCursor::new(&tokens);
    assert_eq!(parse_statement(&mut cursor), Ok(None));
    assert_eq!(cursor.position, 1);
}

#[test]
fn a_function_definition() {
    let expected = Statement::FunctionAssignment {
        name: "add".to_string(),
        arguments: vec![var("a"), var("b")],
        body: vec![Statement::ExpressionStatement(op(var("a"), Operator::Add, var("b")))],
    };
    assert_eq!(parser(lexer("function add(a, b) { return a + b; }")), Ok(vec![expected]));
    let expected = Statement::FunctionAssignment {
        name: "add".to_string(),
        arguments: vec![var("a"), var("b")],
        body: vec![Statement::ExpressionStatement(op(var("a"), Operator::Add, var("b")))],
    };
    assert_eq!(parser(lexer("fn add(a, b) { return a + b; }")), Ok(vec![expected]));
    assert_eq!(
        parser(lexer("fn nothing() {}")),
        Ok(vec![Statement::FunctionAssignment {
            name: "nothing".to_string(),
            arguments: vec![],
            body: vec![],
        }])
    );
}

#[test]
fn parameters_are_read_as_arguments_are() {
    assert_eq!(
        parser(lexer("fn f(1, g(x), a * 2) { }")),
        Ok(vec![Statement::FunctionAssignment {
            name: "f".to_string(),
            arguments: vec![num(1), call("g", vec![var("x")]), op(var("a"), Operator::Mul, num(2))],
            body: vec![],
        }])
    );
}

#[test]
fn a_call_statement() {
    assert_eq!(
        parser(lexer("call print(\"hi\", x + 1);")),
        Ok(vec![Statement::ExpressionStatement(call(
            "print",
            vec![text("hi"), op(var("x"), Operator::Add, num(1))]
        ))])
    );
    assert_eq!(
        parser(lexer("call f();")),
        Ok(vec![Statement::ExpressionStatement(call("f", vec![]))])
    );
}

#[test]
fn a_return_statement_is_its_expression() {
    assert_eq!(
        parser(lexer("return x * 2;")),
        Ok(vec![Statement::ExpressionStatement(op(var("x"), Operator::Mul, num(2)))])
    );
}

#[test]
fn a_conditional() {
    assert_eq!(
        parser(lexer("if (a == b) { call f(); return 0; }")),
        Ok(vec![Statement::ConditionalStatement {
            condition: op(var("a"), Operator::Equal, var("b")),
            body: vec![
                Statement::ExpressionStatement(call("f", vec![])),
                Statement::ExpressionStatement(num(0)),
            ],
        }])
    );
}

#[test]
fn else_is_not_part_of_the_language() {
    assert_eq!(
        parser(lexer("if (a) { } else { }")),
        Err(error(LexSymbol::Keyword, LexSymbol::Identifier, 1, 12))
    );
}

#[test]
fn blocks_nest() {
    let source = "fn f(n) { while (n > 0) { if (n == 1) { return n; } let n = n - 1; } return 0; }";
    let inner_if = Statement::ConditionalStatement {
        condition: op(var("n"), Operator::Equal, num(1)),
        body: vec![Statement::ExpressionStatement(var("n"))],
    };
    let looped = Statement::While {
        condition: op(var("n"), Operator::GreaterThan, num(0)),
        body: vec![
            inner_if,
            Statement::VariableAssignment {
                name: "n".to_string(),
                value: op(var("n"), Operator::Sub, num(1)),
            },
        ],
    };
    assert_eq!(
        parser(lexer(source)),
        Ok(vec![Statement::FunctionAssignment {
            name: "f".to_string(),
            arguments: vec![var("n")],
            body: vec![looped, Statement::ExpressionStatement(num(0))],
        }])
    );
}

#[test]
fn several_statements_in_their_order() {
    assert_eq!(
        parser(lexer("let a = 1; let b = \"two\"; call f(a, b);")),
        Ok(vec![
            Statement::VariableAssignment { name: "a".to_string(), value: num(1) },
            Statement::VariableAssignment { name: "b".to_string(), value: text("two") },
            Statement::ExpressionStatement(call("f", vec![var("a"), var("b")])),
        ])
    );
}

#[test]
fn a_body_may_run_to_the_end_of_the_tokens() {
    assert_eq!(
        parser(lexer("while (x) { let y = 1;")),
        Ok(vec![Statement::While {
            condition: var("x"),
            body: vec![Statement::VariableAssignment { name: "y".to_string(), value: num(1) }],
        }])
    );
    assert_eq!(
        parser(lexer("if (x) { while (y) {")),
        Ok(vec![Statement::ConditionalStatement {
            condition: var("x"),
            body: vec![Statement::While { condition: var("y"), body: vec![] }],
        }])
    );
}

#[test]
fn a_closing_bracket_cannot_begin_a_statement_of_a_program() {
    assert_eq!(
        parser(lexer("let a = 1; }")),
        Err(error(LexSymbol::Keyword, LexSymbol::BlockClosingBracket, 1, 12))
    );
}

#[test]
fn parse_block_stops_before_the_stop_symbol() {
    let tokens = lexer("let a = 1; ; } let b = 2;");
    let mut cursor = TokenCursor::new(&tokens);
    assert_eq!(
        parse_block(LexSymbol::BlockClosingBracket, &mut cursor),
        Ok(vec![Statement::VariableAssignment { name: "a".to_string(), value: num(1) }])
    );
    assert_eq!(cursor.position, 6);
    assert_eq!(cursor.peek(), LexSymbol::BlockClosingBracket);

    // at the stop symbol nothing is read
    assert_eq!(parse_block(LexSymbol::BlockClosingBracket, &mut cursor), Ok(vec![]));
    assert_eq!(cursor.position, 6);

    // another stop symbol
    let mut cursor = TokenCursor::new(&tokens);
    assert_eq!(parse_block(LexSymbol::Keyword, &mut cursor), Ok(vec![]));
    assert_eq!(cursor.position, 0);
}

#[test]
fn statement_errors() {
    // a statement begins with a reserved word or is empty
    assert_eq!(parser(lexer("x = 1;")), Err(error(LexSymbol::Keyword, LexSymbol::Identifier, 1, 1)));
    assert_eq!(parser(lexer("1;")), Err(error(LexSymbol::Keyword, LexSymbol::Integer, 1, 1)));
    assert_eq!(
        parser(lexer("{ }")),
        Err(error(LexSymbol::Keyword, LexSymbol::BlockOpeningBracket, 1, 1))
    );
    // let
    assert_eq!(
        parser(lexer("let = 5;")),
        Err(error(LexSymbol::Identifier, LexSymbol::EqualSign, 1, 5))
    );
    assert_eq!(parser(lexer("let")), Err(error(LexSymbol::Identifier, LexSymbol::EndOfStream, 1, 1)));
    assert_eq!(
        parser(lexer("let x = ;")),
        Err(error(LexSymbol::Identifier, LexSymbol::EndOfStatement, 1, 9))
    );
    assert_eq!(
        parser(lexer("let x = 5")),
        Err(error(LexSymbol::EndOfStatement, LexSymbol::EndOfStream, 1, 9))
    );
    assert_eq!(
        parser(lexer("let x = 5 6;")),
        Err(error(LexSymbol::EndOfStatement, LexSymbol::Integer, 1, 11))
    );
    assert_eq!(
        parser(lexer("let x == 5;")),
        Err(error(LexSymbol::EqualSign, LexSymbol::OperationalSymbol, 1, 7))
    );
    // call
    assert_eq!(
        parser(lexer("call f;")),
        Err(error(LexSymbol::GenericOpeningBracket, LexSymbol::EndOfStatement, 1, 7))
    );
    assert_eq!(
        parser(lexer("call (1);")),
        Err(error(LexSymbol::Identifier, LexSymbol::GenericOpeningBracket, 1, 6))
    );
    assert_eq!(
        parser(lexer("call f(1)")),
        Err(error(LexSymbol::EndOfStatement, LexSymbol::EndOfStream, 1, 9))
    );
    // return
    assert_eq!(
        parser(lexer("return;")),
        Err(error(LexSymbol::Identifier, LexSymbol::EndOfStatement, 1, 7))
    );
    assert_eq!(
        parser(lexer("return 1 }")),
        Err(error(LexSymbol::EndOfStatement, LexSymbol::BlockClosingBracket, 1, 10))
    );
    // if and while
    assert_eq!(
        parser(lexer("if x { }")),
        Err(error(LexSymbol::GenericOpeningBracket, LexSymbol::Identifier, 1, 4))
    );
    assert_eq!(
        parser(lexer("while (x { }")),
        Err(error(LexSymbol::GenericClosingBracket, LexSymbol::BlockOpeningBracket, 1, 10))
    );
    assert_eq!(
        parser(lexer("while (x) let y = 1;")),
        Err(error(LexSymbol::BlockOpeningBracket, LexSymbol::Keyword, 1, 11))
    );
    assert_eq!(
        parser(lexer("if (x)")),
        Err(error(LexSymbol::BlockOpeningBracket, LexSymbol::EndOfStream, 1, 6))
    );
    // function
    assert_eq!(
        parser(lexer("fn (a) { }")),
        Err(error(LexSymbol::Identifier, LexSymbol::GenericOpeningBracket, 1, 4))
    );
    assert_eq!(
        parser(lexer("fn f { }")),
        Err(error(LexSymbol::GenericOpeningBracket, LexSymbol::BlockOpeningBracket, 1, 6))
    );
    assert_eq!(
        parser(lexer("fn f(a) return a;")),
        Err(error(LexSymbol::BlockOpeningBracket, LexSymbol::Keyword, 1, 9))
    );
}

#[test]
fn the_first_error_is_reported_and_no_statement_with_it() {
    assert_eq!(
        parser(lexer("let a = 1;\nlet b 2;\nlet c 3;")),
        Err(error(LexSymbol::EqualSign, LexSymbol::Integer, 2, 7))
    );
    assert_eq!(
        parser(lexer("while (x) {\n  let y = ;\n}")),
        Err(error(LexSymbol::Identifier, LexSymbol::EndOfStatement, 2, 11))
    );
}

#[test]
fn a_keyword_token_that_is_no_reserved_word() {
    let tokens = vec![Lexeme::new(LexSymbol::Keyword, "unless".to_string()).at(4, 2)];
    assert_eq!(parser(tokens), Err(error(LexSymbol::Keyword, LexSymbol::Keyword, 4, 2)));
}

#[test]
fn an_end_of_stream_token_ends_the_program() {
    let tokens = vec![
        Lexeme::new(LexSymbol::Keyword, "return".to_string()),
        Lexeme::new(LexSymbol::Integer, "1".to_string()),
        Lexeme::new(LexSymbol::EndOfStatement, ";".to_string()),
        Lexeme::new(LexSymbol::EndOfStream, "".to_string()),
        Lexeme::new(LexSymbol::Integer, "2".to_string()),
    ];
    assert_eq!(parser(tokens), Ok(vec![Statement::ExpressionStatement(num(1))]));
}

#[test]
fn the_parser_reads_kinds_and_texts_not_places() {
    let placed = lexer("let total = price * 3;");
    let unplaced: Vec<Lexeme> =
        placed.iter().map(|t| Lexeme::new(t.symbol, t.value.clone())).collect();
    assert_eq!(parser(placed), parser(unplaced));
}
