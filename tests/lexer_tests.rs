use kvist::lexer::Lexer;
use kvist::token::TokenType;

#[test]
fn test_next_token_simple() {
    let input = "§(+)={}::";

    let expected = [
        (TokenType::Section, "§"),
        (TokenType::LParen, "("),
        (TokenType::Plus, "+"),
        (TokenType::RParen, ")"),
        (TokenType::Equals, "="),
        (TokenType::LBrace, "{"),
        (TokenType::RBrace, "}"),
        (TokenType::DoubleColon, "::"),
        (TokenType::EOF, ""),
    ];

    let mut lexer = Lexer::new(input);
    for (token, literal) in expected {
        let result = lexer.next_token();
        println!("{:?}", result);
        assert_eq!(token, result.token_type);
        assert_eq!(literal, &*result.literal);
    }
}

#[test]
fn test_next_token() {

    let input = "\
    (set (a 5) (b 10))\
    (fn |a, b| (+ a b))\
    (- z 3)\
    (true false)\
    (* 1 2 3) \
    (/ 3 2 1) \
    (- -1) \
    (+ 5. 10.0 -10. -5.0) \
    \"This is a text\"\
    [ ! < > = ] \
    (@ 1 [1 2 3])\
    (if (true) (+ 1 1)) \
    (while (false) (\"hello\"))\
    (when (false) (\"hello\") (true) (\"world\"))\
    (.. ...)\
    (include \"file.kvist\")
    ";

    let expected = [
        (TokenType::LParen, "("),
        (TokenType::SetKeyword, "set"),
        (TokenType::LParen, "("),
        (TokenType::Ident, "a"),
        (TokenType::Int, "5"),
        (TokenType::RParen, ")"),
        (TokenType::LParen, "("),
        (TokenType::Ident, "b"),
        (TokenType::Int, "10"),
        (TokenType::RParen, ")"),
        (TokenType::RParen, ")"),
        (TokenType::LParen, "("),
        (TokenType::Function, "fn"),
        (TokenType::Pipe, "|"),
        (TokenType::Ident, "a"),
        (TokenType::Comma, ","),
        (TokenType::Ident, "b"),
        (TokenType::Pipe, "|"),
        (TokenType::LParen, "("),
        (TokenType::Plus, "+"),
        (TokenType::Ident, "a"),
        (TokenType::Ident, "b"),
        (TokenType::RParen, ")"),
        (TokenType::RParen, ")"),
        (TokenType::LParen, "("),
        (TokenType::Minus, "-"),
        (TokenType::Ident, "z"),
        (TokenType::Int, "3"),
        (TokenType::RParen, ")"),
        (TokenType::LParen, "("),
        (TokenType::True, "true"),
        (TokenType::False, "false"),
        (TokenType::RParen, ")"),
        (TokenType::LParen, "("),
        (TokenType::Asterisk, "*"),
        (TokenType::Int, "1"),
        (TokenType::Int, "2"),
        (TokenType::Int, "3"),
        (TokenType::RParen, ")"),
        (TokenType::LParen, "("),
        (TokenType::Slash, "/"),
        (TokenType::Int, "3"),
        (TokenType::Int, "2"),
        (TokenType::Int, "1"),
        (TokenType::RParen, ")"),
        (TokenType::LParen, "("),
        (TokenType::Minus, "-"),
        (TokenType::Int, "-1"),
        (TokenType::RParen, ")"),
        (TokenType::LParen, "("),
        (TokenType::Plus, "+"),
        (TokenType::Float, "5."),
        (TokenType::Float, "10.0"),
        (TokenType::Float, "-10."),
        (TokenType::Float, "-5.0"),
        (TokenType::RParen, ")"),
        (TokenType::String, "This is a text"),
        (TokenType::LBracket, "["),
        (TokenType::Bang, "!"),
        (TokenType::LesserThan, "<"),
        (TokenType::GreaterThan, ">"),
        (TokenType::Equals, "="),
        (TokenType::RBracket, "]"),
        (TokenType::LParen, "("),
        (TokenType::At, "@"),
        (TokenType::Int, "1"),
        (TokenType::LBracket, "["),
        (TokenType::Int, "1"),
        (TokenType::Int, "2"),
        (TokenType::Int, "3"),
        (TokenType::RBracket, "]"),
        (TokenType::RParen, ")"),
        (TokenType::LParen, "("),
        (TokenType::If, "if"),
        (TokenType::LParen, "("),
        (TokenType::True, "true"),
        (TokenType::RParen, ")"),
        (TokenType::LParen, "("),
        (TokenType::Plus, "+"),
        (TokenType::Int, "1"),
        (TokenType::Int, "1"),
        (TokenType::RParen, ")"),
        (TokenType::RParen, ")"),
        (TokenType::LParen, "("),
        (TokenType::While, "while"),
        (TokenType::LParen, "("),
        (TokenType::False, "false"),
        (TokenType::RParen, ")"),
        (TokenType::LParen, "("),
        (TokenType::String, "hello"),
        (TokenType::RParen, ")"),
        (TokenType::RParen, ")"),
        (TokenType::LParen, "("),
        (TokenType::When, "when"),
        (TokenType::LParen, "("),
        (TokenType::False, "false"),
        (TokenType::RParen, ")"),
        (TokenType::LParen, "("),
        (TokenType::String, "hello"),
        (TokenType::RParen, ")"),
        (TokenType::LParen, "("),
        (TokenType::True, "true"),
        (TokenType::RParen, ")"),
        (TokenType::LParen, "("),
        (TokenType::String, "world"),
        (TokenType::RParen, ")"),
        (TokenType::RParen, ")"),
        (TokenType::LParen, "("),
        (TokenType::DoubleDot, ".."),
        (TokenType::Ellipsis, "..."),
        (TokenType::RParen, ")"),
        (TokenType::LParen, "("),
        (TokenType::Include, "include"),
        (TokenType::String, "file.kvist"),
        (TokenType::RParen, ")"),
        (TokenType::EOF, ""),
    ];

    let mut lexer = Lexer::new(input);
    for (token, literal) in expected {
        let result = lexer.next_token();
        assert_eq!(token, result.token_type);
        assert_eq!(literal, &*result.literal);
    }
}
#[test]
fn test_col_and_row_count() {
    let input =
"(x)
a b c
:: d ::
:: :: e
.. ...";

    let expected = [
        (1, 1),
        (2, 1),
        (3, 1),
        (1, 2),
        (3, 2),
        (5, 2),
        (1, 3),
        (4, 3),
        (6, 3),
        (1, 4),
        (4, 4),
        (7, 4),
        (1, 5),
        (4, 5),
    ];

    let mut lexer = Lexer::new(input);
    for expect in expected {
        let result = lexer.next_token();
        assert_eq!(expect, (result.col, result.row))
    }
}
#[test]
fn test_comments_and_row_count() {
    let input =
        "#!/usr/bin/env kvist
(x)
# This is text
a b c
";

    let expected = [
        (1, 2),
        (2, 2),
        (3, 2),
        (1, 4),
        (3, 4),
        (5, 4),
    ];

    let mut lexer = Lexer::new(input);
    for expect in expected {
        let result = lexer.next_token();
        assert_eq!(expect, (result.col, result.row))
    }
}

#[test]
fn glyphs_yield_their_kind_and_text() {
    let input = "( ) { } [ ] | @ , + * / < > = ! § - :: .. ... : .";
    let expected = [
        (TokenType::LParen, "("),
        (TokenType::RParen, ")"),
        (TokenType::LBrace, "{"),
        (TokenType::RBrace, "}"),
        (TokenType::LBracket, "["),
        (TokenType::RBracket, "]"),
        (TokenType::Pipe, "|"),
        (TokenType::At, "@"),
        (TokenType::Comma, ","),
        (TokenType::Plus, "+"),
        (TokenType::Asterisk, "*"),
        (TokenType::Slash, "/"),
        (TokenType::LesserThan, "<"),
        (TokenType::GreaterThan, ">"),
        (TokenType::Equals, "="),
        (TokenType::Bang, "!"),
        (TokenType::Section, "§"),
        (TokenType::Minus, "-"),
        (TokenType::DoubleColon, "::"),
        (TokenType::DoubleDot, ".."),
        (TokenType::Ellipsis, "..."),
        (TokenType::Illegal, ":"),
        (TokenType::Illegal, "."),
        (TokenType::EOF, ""),
    ];
    let mut lexer = Lexer::new(input);
    for (kind, literal) in expected {
        let result = lexer.next_token();
        assert_eq!(kind, result.token_type);
        assert_eq!(literal, result.literal.as_str());
    }
}

#[test]
fn section_marker_counts_one_column() {
    let mut lexer = Lexer::new("§x\n  y");
    let first = lexer.next_token();
    assert_eq!((TokenType::Section, 1, 1), (first.token_type, first.col, first.row));
    let second = lexer.next_token();
    assert_eq!((TokenType::Ident, 2, 1), (second.token_type, second.col, second.row));
    let third = lexer.next_token();
    assert_eq!((TokenType::Ident, 3, 2), (third.token_type, third.col, third.row));
}

#[test]
fn comment_lines_emit_no_tokens() {
    let mut lexer = Lexer::new("#!/bin/kvist\n# note (x)\nfoo # tail\n");
    let token = lexer.next_token();
    assert_eq!(TokenType::Ident, token.token_type);
    assert_eq!("foo", token.literal.as_str());
    assert_eq!((1, 3), (token.col, token.row));
    assert_eq!(TokenType::EOF, lexer.next_token().token_type);
}

#[test]
fn end_of_input_repeats() {
    let mut lexer = Lexer::new("x ");
    assert_eq!(TokenType::Ident, lexer.next_token().token_type);
    let first = lexer.next_token();
    for _ in 0..3 {
        let again = lexer.next_token();
        assert_eq!(TokenType::EOF, again.token_type);
        assert_eq!("", again.literal.as_str());
        assert_eq!((first.col, first.row), (again.col, again.row));
    }
    let mut empty = Lexer::new("");
    assert_eq!(TokenType::EOF, empty.next_token().token_type);
    assert_eq!(TokenType::EOF, empty.next_token().token_type);
}

#[test]
fn strings_numbers_and_keywords() {
    let mut lexer = Lexer::new("\"open -12 3.5 -7. include_x while \"\"tail");
    let expected = [
        (TokenType::String, "open -12 3.5 -7. include_x while "),
        (TokenType::String, "tail"),
        (TokenType::EOF, ""),
    ];
    for (kind, literal) in expected {
        let result = lexer.next_token();
        assert_eq!(kind, result.token_type);
        assert_eq!(literal, result.literal.as_str());
    }
    let mut lexer = Lexer::new("-12 3.5 -7. include_x while");
    let expected = [
        (TokenType::Int, "-12"),
        (TokenType::Float, "3.5"),
        (TokenType::Float, "-7."),
        (TokenType::Ident, "include_x"),
        (TokenType::While, "while"),
    ];
    for (kind, literal) in expected {
        let result = lexer.next_token();
        assert_eq!(kind, result.token_type);
        assert_eq!(literal, result.literal.as_str());
    }
}

#[test]
fn newline_in_string_advances_the_row() {
    let mut lexer = Lexer::new("\"a\nb\" (\n\"\n\"x");
    let first = lexer.next_token();
    assert_eq!((TokenType::String, "a\nb", 1, 1), (first.token_type, first.literal.as_str(), first.col, first.row));
    let paren = lexer.next_token();
    assert_eq!((TokenType::LParen, 4, 2), (paren.token_type, paren.col, paren.row));
    let second = lexer.next_token();
    assert_eq!((TokenType::String, 1, 3), (second.token_type, second.col, second.row));
    let last = lexer.next_token();
    assert_eq!((TokenType::Ident, 2, 4), (last.token_type, last.col, last.row));
}
