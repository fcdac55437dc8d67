use lexfront::lexer::{get_symbol_tree, LexError, Lexer, Token};
use lexfront::lines::split_lines;
use lexfront::types::SpanData;

fn lex(src: &str) -> Result<Vec<SpanData<Token>>, LexError> {
    let mut lexer = Lexer::new("test", src);
    lexer.try_parse_tokens()
}

fn tokens(src: &str) -> Vec<Token> {
    lex(src).expect("scanning failed").into_iter().map(|t| t.value).collect()
}

fn ident(s: &str) -> Token {
    Token::Identifier(s.to_string())
}

fn number_value(t: &Token) -> f64 {
    match t {
        Token::Number(text) => text.parse::<f64>().expect("numeral"),
        other => panic!("not a number: {:?}", other),
    }
}

#[test]
fn number_integer() {
    let toks = tokens("123");
    assert_eq!(toks, vec![Token::Number("123".to_string())]);
    assert_eq!(number_value(&toks[0]), 123.0);
}

#[test]
fn number_trailing_dot_is_period() {
    let toks = tokens("123.");
    assert_eq!(toks, vec![Token::Number("123".to_string()), Token::Period]);
    assert_eq!(number_value(&toks[0]), 123.0);
}

#[test]
fn number_leading_dot_is_not_a_number() {
    let toks = tokens(".5");
    assert_eq!(toks, vec![Token::Period, Token::Number("5".to_string())]);
}

#[test]
fn number_with_fraction() {
    let toks = tokens("12.5");
    assert_eq!(toks.len(), 1);
    assert_eq!(number_value(&toks[0]), 12.5);
}

#[test]
fn number_two_points() {
    let toks = tokens("1.2.3");
    assert_eq!(
        toks,
        vec![Token::Number("1.2".to_string()), Token::Period, Token::Number("3".to_string())]
    );
}

#[test]
fn number_point_before_letter() {
    let toks = tokens("1.x");
    assert_eq!(toks, vec![Token::Number("1".to_string()), Token::Period, ident("x")]);
}

#[test]
fn symbol_double_equals_is_one_token() {
    assert_eq!(tokens("=="), vec![Token::DoubleEquals]);
}

#[test]
fn symbol_equals_then_semicolon() {
    // `;` belongs to the symbol characters, so "=;" is read as one run,
    // which is no symbol; apart, the two are read one by one.
    match lex("=;") {
        Err(LexError::UnknownSymbol(s)) => assert_eq!(s, "=;"),
        other => panic!("unexpected: {:?}", other),
    }
    assert_eq!(tokens("= ;"), vec![Token::Equals, Token::Semicolon]);
    assert_eq!(tokens("x=1;"), vec![ident("x"), Token::Equals, Token::Number("1".to_string()), Token::Semicolon]);
}

#[test]
fn symbol_run_is_read_whole() {
    // "=;" is not a symbol, and the run of symbol characters is not split.
    match lex("=;=") {
        Err(LexError::UnknownSymbol(s)) => assert_eq!(s, "=;="),
        other => panic!("unexpected: {:?}", other),
    }
}

#[test]
fn symbol_unknown_character() {
    match lex("a ?") {
        Err(LexError::UnknownSymbol(s)) => assert_eq!(s, ""),
        other => panic!("unexpected: {:?}", other),
    }
}

#[test]
fn symbol_range_and_arrows() {
    assert_eq!(
        tokens("..= .. -> => != ! <= >="),
        vec![
            Token::InclusiveRange,
            Token::ExclusiveRange,
            Token::SingleArrow,
            Token::DoubleArrow,
            Token::NotEquals,
            Token::Not,
            Token::LessThanEquals,
            Token::GreaterThanEquals,
        ]
    );
}

#[test]
fn symbol_all_single() {
    assert_eq!(
        tokens(". , ; : ( ) [ ] { } = + - * / % > <"),
        vec![
            Token::Period,
            Token::Comma,
            Token::Semicolon,
            Token::Colon,
            Token::OpenParen,
            Token::CloseParen,
            Token::OpenBracket,
            Token::CloseBracket,
            Token::OpenBrace,
            Token::CloseBrace,
            Token::Equals,
            Token::Plus,
            Token::Minus,
            Token::Times,
            Token::Divide,
            Token::Modulo,
            Token::GreaterThan,
            Token::LessThan,
        ]
    );
}

#[test]
fn symbol_compound_assignments() {
    assert_eq!(
        tokens("+= -= *= /= %="),
        vec![
            Token::PlusEquals,
            Token::MinusEquals,
            Token::TimesEquals,
            Token::DivideEquals,
            Token::ModuloEquals,
        ]
    );
}

#[test]
fn keyword_let() {
    assert_eq!(tokens("let"), vec![Token::Let]);
}

#[test]
fn keyword_prefix_of_identifier() {
    assert_eq!(tokens("lets"), vec![ident("lets")]);
}

#[test]
fn keywords_all() {
    assert_eq!(
        tokens("pub fn let if else loop while for in return break continue"),
        vec![
            Token::Public,
            Token::Function,
            Token::Let,
            Token::If,
            Token::Else,
            Token::Loop,
            Token::While,
            Token::For,
            Token::In,
            Token::Return,
            Token::Break,
            Token::Continue,
        ]
    );
}

#[test]
fn identifiers_with_digits_and_underscores() {
    assert_eq!(tokens("_a1 b_2c"), vec![ident("_a1"), ident("b_2c")]);
}

#[test]
fn identifier_shorter_than_keyword() {
    assert_eq!(tokens("le i"), vec![ident("le"), ident("i")]);
}

#[test]
fn string_with_escaped_quote() {
    assert_eq!(tokens("\"a\\\"b\""), vec![Token::String("a\\\"b".to_string())]);
}

#[test]
fn string_plain_and_span() {
    let toks = lex("x \"hi there\" y").unwrap();
    assert_eq!(toks.len(), 3);
    assert_eq!(toks[1].value, Token::String("hi there".to_string()));
    assert_eq!(toks[1].span.start.as_tuple(), (0, 2));
    assert_eq!(toks[1].span.stop.as_tuple(), (0, 12));
}

#[test]
fn string_escaped_backslash_closes() {
    assert_eq!(tokens("\"a\\\\\" b"), vec![Token::String("a\\\\".to_string()), ident("b")]);
}

#[test]
fn string_unterminated_is_an_error() {
    match lex("\"abc") {
        Err(LexError::UnknownSymbol(s)) => assert_eq!(s, ""),
        other => panic!("unexpected: {:?}", other),
    }
}

#[test]
fn end_to_end_statement() {
    let toks = tokens("let x = 12.5;\n");
    assert_eq!(
        toks,
        vec![
            Token::Let,
            ident("x"),
            Token::Equals,
            Token::Number("12.5".to_string()),
            Token::Semicolon,
        ]
    );
    assert_eq!(number_value(&toks[3]), 12.5);
}

#[test]
fn empty_and_blank_input() {
    assert!(tokens("").is_empty());
    assert!(tokens(" \n\t \n").is_empty());
}

#[test]
fn unicode_whitespace_separates() {
    assert_eq!(tokens("a\u{A0}b\u{2003}c"), vec![ident("a"), ident("b"), ident("c")]);
}

#[test]
fn spans_on_one_line() {
    let toks = lex("let xy").unwrap();
    assert_eq!(toks[0].span.start.as_tuple(), (0, 0));
    assert_eq!(toks[0].span.stop.as_tuple(), (0, 3));
    assert_eq!(toks[1].span.start.as_tuple(), (0, 4));
    // Past the last character of the last line.
    assert_eq!(toks[1].span.stop.as_tuple(), (1, 0));
    assert_eq!(toks[1].span.name, "test");
}

#[test]
fn spans_across_lines() {
    let toks = lex("a\n  bb\n").unwrap();
    assert_eq!(toks.len(), 2);
    assert_eq!(toks[0].span.start.as_tuple(), (0, 0));
    assert_eq!(toks[0].span.stop.as_tuple(), (0, 1));
    assert_eq!(toks[1].span.start.as_tuple(), (1, 2));
    assert_eq!(toks[1].span.stop.as_tuple(), (1, 4));
}

#[test]
fn span_at_end_of_text() {
    let toks = lex("ab").unwrap();
    assert_eq!(toks[0].span.stop.as_tuple(), (1, 0));
}

fn offset(lines: &[Vec<char>], row: usize, col: usize) -> usize {
    lines[..row].iter().map(|l| l.len()).sum::<usize>() + col
}

#[test]
fn round_trip_rebuilds_source() {
    let src = "let x = 12.5;\nif (x >= 3) { y += \"s\\\"t\" }\n  ";
    let chars: Vec<char> = src.chars().collect();
    let lines = split_lines(src);
    let toks = lex(src).unwrap();
    let mut rebuilt = String::new();
    let mut at = 0;
    for t in &toks {
        let s = offset(&lines, t.span.start.row, t.span.start.col);
        let e = offset(&lines, t.span.stop.row, t.span.stop.col);
        assert!(at <= s && s < e);
        assert!(chars[at..s].iter().all(|c| c.is_whitespace()));
        rebuilt.extend(&chars[at..e]);
        at = e;
    }
    assert!(chars[at..].iter().all(|c| c.is_whitespace()));
    rebuilt.extend(&chars[at..]);
    assert_eq!(rebuilt, src);
}

#[test]
fn split_lines_keeps_newlines() {
    assert_eq!(split_lines("a\nbc"), vec![vec!['a', '\n'], vec!['b', 'c']]);
    assert_eq!(split_lines("a\n"), vec![vec!['a', '\n'], vec![]]);
    assert_eq!(split_lines(""), vec![Vec::<char>::new()]);
}

#[test]
fn symbol_tree_finds_symbols() {
    let tree = get_symbol_tree();
    assert_eq!(tree.find("=="), Some(&Token::DoubleEquals));
    assert_eq!(tree.find("..="), Some(&Token::InclusiveRange));
    assert_eq!(tree.find("=;"), None);
    assert_eq!(tree.find(""), None);
    let mut chars = tree.get_all_chars();
    chars.sort();
    let mut expected: Vec<char> = ".,;:()[]{}=+-*/%><!".chars().collect();
    expected.sort();
    assert_eq!(chars, expected);
}

#[test]
fn token_duplicate_is_equal() {
    let t = Token::Identifier("abc".to_string());
    assert_eq!(t.duplicate(), t);
    assert_eq!(Token::Colon.duplicate(), Token::Colon);
}

#[test]
fn lex_error_constructors() {
    match LexError::unknown_symbol("=;") {
        LexError::UnknownSymbol(s) => assert_eq!(s, "=;"),
        other => panic!("unexpected: {:?}", other),
    }
    match LexError::custom("bad") {
        LexError::Custom(s) => assert_eq!(s, "bad"),
        other => panic!("unexpected: {:?}", other),
    }
}
