use frontend::lexer::{lex_chars, lex_token, lexer, to_chars, CharCursor, LexSymbol, Lexeme, Location};

fn token(symbol: LexSymbol, value: &str, line: usize, column: usize) -> Lexeme {
    Lexeme::new(symbol, value.to_string()).at(line, column)
}

fn kinds(tokens: &[Lexeme]) -> Vec<LexSymbol> {
    tokens.iter().map(|t| t.symbol).collect()
}

fn values(tokens: &[Lexeme]) -> Vec<String> {
    tokens.iter().map(|t| t.value.clone()).collect()
}

#[test]
fn new_places_a_token_at_the_start() {
    let lexeme = Lexeme::new(LexSymbol::Identifier, "abc".to_string());
    assert_eq!(lexeme.symbol, LexSymbol::Identifier);
    assert_eq!(lexeme.value, "abc");
    assert_eq!(lexeme.location, Location { line: 1, column: 1 });
}

#[test]
fn at_moves_a_token_and_keeps_the_rest() {
    let lexeme = Lexeme::new(LexSymbol::Integer, "7".to_string()).at(3, 9);
    assert_eq!(lexeme.symbol, LexSymbol::Integer);
    assert_eq!(lexeme.value, "7");
    assert_eq!(lexeme.location, Location { line: 3, column: 9 });
}

#[test]
fn empty_source_has_no_tokens() {
    assert_eq!(lexer(""), vec![]);
    assert_eq!(lexer(" \t\r\n  "), vec![]);
}

#[test]
fn let_statement_tokens() {
    assert_eq!(
        lexer("let x = 5;"),
        vec![
            token(LexSymbol::Keyword, "let", 1, 1),
            token(LexSymbol::Identifier, "x", 1, 5),
            token(LexSymbol::EqualSign, "=", 1, 7),
            token(LexSymbol::Integer, "5", 1, 9),
            token(LexSymbol::EndOfStatement, ";", 1, 10),
        ]
    );
}

#[test]
fn every_reserved_word_is_a_keyword() {
    let tokens = lexer("let function fn call return if while");
    assert_eq!(tokens.len(), 7);
    for t in &tokens {
        assert_eq!(t.symbol, LexSymbol::Keyword);
    }
    assert_eq!(values(&tokens), vec!["let", "function", "fn", "call", "return", "if", "while"]);
}

#[test]
fn words_that_only_resemble_keywords_are_identifiers() {
    let tokens = lexer("lets If _let while1 fnx else");
    assert_eq!(tokens.len(), 6);
    for t in &tokens {
        assert_eq!(t.symbol, LexSymbol::Identifier);
    }
}

#[test]
fn identifiers_hold_letters_digits_and_underscores() {
    assert_eq!(
        lexer("_a1_b2 Z9"),
        vec![token(LexSymbol::Identifier, "_a1_b2", 1, 1), token(LexSymbol::Identifier, "Z9", 1, 8)]
    );
}

#[test]
fn a_numeral_takes_dots_without_checking_them() {
    assert_eq!(lexer("1.2.3"), vec![token(LexSymbol::Integer, "1.2.3", 1, 1)]);
    assert_eq!(lexer("7."), vec![token(LexSymbol::Integer, "7.", 1, 1)]);
}

#[test]
fn a_leading_dot_is_a_dot() {
    assert_eq!(
        lexer(".5"),
        vec![token(LexSymbol::Dot, ".", 1, 1), token(LexSymbol::Integer, "5", 1, 2)]
    );
}

#[test]
fn a_numeral_ends_where_a_letter_begins() {
    assert_eq!(
        lexer("12ab"),
        vec![token(LexSymbol::Integer, "12", 1, 1), token(LexSymbol::Identifier, "ab", 1, 3)]
    );
}

#[test]
fn a_string_loses_its_quotes() {
    assert_eq!(lexer("\"hello world\""), vec![token(LexSymbol::String, "hello world", 1, 1)]);
    assert_eq!(lexer("\"\""), vec![token(LexSymbol::String, "", 1, 1)]);
}

#[test]
fn a_string_knows_no_escapes() {
    assert_eq!(
        lexer("\"a\\\"b"),
        vec![token(LexSymbol::String, "a\\", 1, 1), token(LexSymbol::Identifier, "b", 1, 5)]
    );
}

#[test]
fn an_open_string_runs_to_the_end() {
    assert_eq!(lexer("\"abc 1 + 2"), vec![token(LexSymbol::String, "abc 1 + 2", 1, 1)]);
    assert_eq!(lexer("x \""), vec![
        token(LexSymbol::Identifier, "x", 1, 1),
        token(LexSymbol::String, "", 1, 3),
    ]);
}

#[test]
fn round_and_curly_brackets_are_kinds_apart() {
    assert_eq!(
        lexer("(){}"),
        vec![
            token(LexSymbol::GenericOpeningBracket, "(", 1, 1),
            token(LexSymbol::GenericClosingBracket, ")", 1, 2),
            token(LexSymbol::BlockOpeningBracket, "{", 1, 3),
            token(LexSymbol::BlockClosingBracket, "}", 1, 4),
        ]
    );
}

#[test]
fn square_brackets_are_no_tokens() {
    assert_eq!(lexer("[x]"), vec![token(LexSymbol::Identifier, "x", 1, 2)]);
}

#[test]
fn one_character_operators() {
    let tokens = lexer("+ - * / < >");
    assert_eq!(values(&tokens), vec!["+", "-", "*", "/", "<", ">"]);
    for t in &tokens {
        assert_eq!(t.symbol, LexSymbol::OperationalSymbol);
    }
}

#[test]
fn two_character_operators() {
    assert_eq!(
        lexer("<= >= == !="),
        vec![
            token(LexSymbol::OperationalSymbol, "<=", 1, 1),
            token(LexSymbol::OperationalSymbol, ">=", 1, 4),
            token(LexSymbol::OperationalSymbol, "==", 1, 7),
            token(LexSymbol::OperationalSymbol, "!=", 1, 10),
        ]
    );
}

#[test]
fn a_single_equals_is_the_assignment_sign() {
    assert_eq!(lexer("="), vec![token(LexSymbol::EqualSign, "=", 1, 1)]);
    assert_eq!(
        lexer("= ="),
        vec![token(LexSymbol::EqualSign, "=", 1, 1), token(LexSymbol::EqualSign, "=", 1, 3)]
    );
}

#[test]
fn three_equals_are_an_operator_and_a_sign() {
    assert_eq!(
        lexer("==="),
        vec![token(LexSymbol::OperationalSymbol, "==", 1, 1), token(LexSymbol::EqualSign, "=", 1, 3)]
    );
}

#[test]
fn a_bare_exclamation_mark_is_skipped() {
    assert_eq!(lexer("!"), vec![]);
    assert_eq!(
        lexer("a ! b"),
        vec![token(LexSymbol::Identifier, "a", 1, 1), token(LexSymbol::Identifier, "b", 1, 5)]
    );
    assert_eq!(
        lexer("!!="),
        vec![token(LexSymbol::OperationalSymbol, "!=", 1, 2)]
    );
}

#[test]
fn terminator_dot_comma_and_colon() {
    assert_eq!(
        lexer(";.,:"),
        vec![
            token(LexSymbol::EndOfStatement, ";", 1, 1),
            token(LexSymbol::Dot, ".", 1, 2),
            token(LexSymbol::Comma, ",", 1, 3),
            token(LexSymbol::DoubleDot, ":", 1, 4),
        ]
    );
}

#[test]
fn lines_and_columns_are_counted_from_one() {
    assert_eq!(
        lexer("a\n  b\n\nc d"),
        vec![
            token(LexSymbol::Identifier, "a", 1, 1),
            token(LexSymbol::Identifier, "b", 2, 3),
            token(LexSymbol::Identifier, "c", 4, 1),
            token(LexSymbol::Identifier, "d", 4, 3),
        ]
    );
}

#[test]
fn a_tab_and_a_carriage_return_are_one_column_each() {
    assert_eq!(
        lexer("\ta\r\n\r b"),
        vec![token(LexSymbol::Identifier, "a", 1, 2), token(LexSymbol::Identifier, "b", 2, 3)]
    );
}

#[test]
fn line_breaks_inside_a_string_count() {
    assert_eq!(
        lexer("\"a\nb\" c\nd"),
        vec![
            token(LexSymbol::String, "a\nb", 1, 1),
            token(LexSymbol::Identifier, "c", 2, 4),
            token(LexSymbol::Identifier, "d", 3, 1),
        ]
    );
}

#[test]
fn a_column_counts_characters_not_bytes() {
    assert_eq!(
        lexer("\"\u{e9}\u{4e16}\" x"),
        vec![token(LexSymbol::String, "\u{e9}\u{4e16}", 1, 1), token(LexSymbol::Identifier, "x", 1, 6)]
    );
}

#[test]
fn skipped_characters_still_take_a_column() {
    assert_eq!(
        lexer("a $ b"),
        vec![token(LexSymbol::Identifier, "a", 1, 1), token(LexSymbol::Identifier, "b", 1, 5)]
    );
}

#[test]
fn letters_outside_ascii_are_skipped() {
    assert_eq!(
        lexer("\u{e9}a"),
        vec![token(LexSymbol::Identifier, "a", 1, 2)]
    );
}

#[test]
fn tokenizer_leniency_unrecognized_character_between_tokens() {
    let with = lexer("let x $ = 5;");
    let without = lexer("let x  = 5;");
    assert_eq!(kinds(&with), kinds(&without));
    assert_eq!(values(&with), values(&without));
    let removed = lexer("let x = 5;");
    assert_eq!(kinds(&with), kinds(&removed));
    assert_eq!(values(&with), values(&removed));
}

#[test]
fn an_unrecognized_character_acts_as_a_blank() {
    assert_eq!(lexer("ab$cd #1"), lexer("ab cd  1"));
}

#[test]
fn removing_a_character_inside_a_token_changes_the_tokens() {
    let with = lexer("ab$cd");
    let without = lexer("abcd");
    assert_eq!(values(&with), vec!["ab", "cd"]);
    assert_eq!(values(&without), vec!["abcd"]);
}

fn spaced(tokens: &[Lexeme]) -> String {
    let mut text = String::new();
    for t in tokens {
        text.push_str(&t.value);
        text.push(' ');
    }
    text
}

#[test]
fn retokenizing_the_spaced_values_keeps_the_kinds() {
    let source = "fn  add(a,b){return a+b*2;}\nlet x=add(1,22)<=3.5;if(x!=y){call f();}";
    let first = lexer(source);
    let second = lexer(&spaced(&first));
    assert_eq!(kinds(&first), kinds(&second));
    assert_eq!(values(&first), values(&second));
}

#[test]
fn retokenizing_a_string_value_does_not_keep_its_kind() {
    let first = lexer("\"hello world\"");
    let second = lexer(&spaced(&first));
    assert_eq!(kinds(&first), vec![LexSymbol::String]);
    assert_eq!(kinds(&second), vec![LexSymbol::Identifier, LexSymbol::Identifier]);
}

#[test]
fn to_chars_keeps_every_character() {
    assert_eq!(to_chars("a\u{e9}\n;"), vec!['a', '\u{e9}', '\n', ';']);
    assert_eq!(to_chars(""), Vec::<char>::new());
}

#[test]
fn lex_chars_agrees_with_lexer() {
    let source = "while (x < 10) { let x = x + 1; }";
    let chars: Vec<char> = source.chars().collect();
    assert_eq!(lex_chars(&chars), lexer(source));
}

#[test]
fn lex_token_reads_one_token_at_a_time() {
    let chars: Vec<char> = "  ab <= \"s".chars().collect();
    let mut cursor = CharCursor::new(&chars);
    assert_eq!(cursor.position(), 0);
    assert_eq!(lex_token(&mut cursor), Some(token(LexSymbol::Identifier, "ab", 1, 3)));
    assert_eq!(cursor.position(), 4);
    assert_eq!(lex_token(&mut cursor), Some(token(LexSymbol::OperationalSymbol, "<=", 1, 6)));
    assert_eq!(cursor.position(), 7);
    assert_eq!(lex_token(&mut cursor), Some(token(LexSymbol::String, "s", 1, 9)));
    assert_eq!(cursor.position(), 10);
    assert_eq!(lex_token(&mut cursor), None);
    assert_eq!(cursor.position(), 10);
    assert_eq!(lex_token(&mut cursor), None);
}

#[test]
fn lex_token_reads_trailing_blanks_to_the_end() {
    let chars: Vec<char> = "a  $ ".chars().collect();
    let mut cursor = CharCursor::new(&chars);
    assert_eq!(lex_token(&mut cursor), Some(token(LexSymbol::Identifier, "a", 1, 1)));
    assert_eq!(cursor.position(), 1);
    assert_eq!(lex_token(&mut cursor), None);
    assert_eq!(cursor.position(), 5);
}
