use while_lang::{
    add_token, assign_initial_token, check_if_keyword, line_to_tokens, scan_file, Token,
    TokenType,
};

fn scan(text: &str) -> Vec<Token> {
    match scan_file(text.to_string()) {
        Ok(tokens) => tokens,
        Err(e) => panic!("{}", e.to_string()),
    }
}

fn texts(tokens: &[Token]) -> Vec<String> {
    tokens.iter().map(|token| token.value.clone()).collect()
}

fn kinds(tokens: &[Token]) -> Vec<TokenType> {
    tokens.iter().map(|token| token.kind).collect()
}

fn lines(tokens: &[Token]) -> Vec<usize> {
    tokens.iter().map(|token| token.line).collect()
}

#[test]
fn empty_text_has_no_tokens() {
    assert!(scan("").is_empty());
    assert!(scan("\n\n").is_empty());
    assert!(scan("  \t \r\n ").is_empty());
}

#[test]
fn words_are_parted_by_white_space() {
    let tokens = scan("a\tb  c\u{a0}d");
    assert_eq!(texts(&tokens), vec!["a", "b", "c", "d"]);
}

#[test]
fn lexemes_are_cut_without_white_space() {
    let tokens = scan("x1:=(12+y)*3;");
    assert_eq!(texts(&tokens), vec!["x1", ":=", "(", "12", "+", "y", ")", "*", "3", ";"]);
    assert_eq!(
        kinds(&tokens),
        vec![
            TokenType::Identifier,
            TokenType::Symbol,
            TokenType::Symbol,
            TokenType::Number,
            TokenType::Symbol,
            TokenType::Identifier,
            TokenType::Symbol,
            TokenType::Symbol,
            TokenType::Number,
            TokenType::Symbol,
        ]
    );
}

#[test]
fn a_number_ends_where_letters_begin() {
    let tokens = scan("12ab");
    assert_eq!(texts(&tokens), vec!["12", "ab"]);
    assert_eq!(kinds(&tokens), vec![TokenType::Number, TokenType::Identifier]);
}

#[test]
fn keywords_are_told_from_identifiers() {
    let tokens = scan("if then else endif while do endwhile skip iff whiles");
    assert_eq!(
        kinds(&tokens),
        vec![
            TokenType::Keyword,
            TokenType::Keyword,
            TokenType::Keyword,
            TokenType::Keyword,
            TokenType::Keyword,
            TokenType::Keyword,
            TokenType::Keyword,
            TokenType::Keyword,
            TokenType::Identifier,
            TokenType::Identifier,
        ]
    );
}

#[test]
fn every_symbol_is_read() {
    let tokens = scan("+ - * / ( ) ; :=");
    assert_eq!(texts(&tokens), vec!["+", "-", "*", "/", "(", ")", ";", ":="]);
    assert!(tokens.iter().all(|token| token.kind == TokenType::Symbol));
}

#[test]
fn lines_are_counted_from_one() {
    let tokens = scan("a\nb c\r\n\nd");
    assert_eq!(texts(&tokens), vec!["a", "b", "c", "d"]);
    assert_eq!(lines(&tokens), vec![1, 2, 2, 4]);
}

#[test]
fn a_line_feed_at_the_end_opens_no_line() {
    let tokens = scan("a\n");
    assert_eq!(lines(&tokens), vec![1]);
}

#[test]
fn an_unknown_character_is_reported() {
    match scan_file("x := 1\ny := $".to_string()) {
        Err(e) => assert_eq!(e.to_string(), "Scan Error on line 2: unable to read \"$\""),
        Ok(_) => panic!("expected a scan error"),
    }
}

#[test]
fn a_colon_alone_is_reported() {
    match scan_file("a : b".to_string()) {
        Err(e) => assert_eq!(e.to_string(), "Scan Error on line 1: unable to read \":\""),
        Ok(_) => panic!("expected a scan error"),
    }
    match scan_file("a :b".to_string()) {
        Err(e) => assert_eq!(e.to_string(), "Scan Error on line 1: unable to read \":\""),
        Ok(_) => panic!("expected a scan error"),
    }
}

#[test]
fn a_letter_that_is_not_ascii_is_reported() {
    match scan_file("\u{e9}".to_string()) {
        Err(e) => assert_eq!(e.to_string(), "Scan Error on line 1: unable to read \"\u{e9}\""),
        Ok(_) => panic!("expected a scan error"),
    }
}

#[test]
fn the_first_error_is_the_one_reported() {
    match scan_file("a ? b\n!".to_string()) {
        Err(e) => assert_eq!(e.to_string(), "Scan Error on line 1: unable to read \"?\""),
        Ok(_) => panic!("expected a scan error"),
    }
}

#[test]
fn a_line_is_scanned_with_the_number_given() {
    let tokens = match line_to_tokens("x := 7", 12) {
        Ok(tokens) => tokens,
        Err(e) => panic!("{}", e.to_string()),
    };
    assert_eq!(texts(&tokens), vec!["x", ":=", "7"]);
    assert_eq!(lines(&tokens), vec![12, 12, 12]);
    match line_to_tokens("x := #", 12) {
        Err(e) => assert_eq!(e.to_string(), "Scan Error on line 12: unable to read \"#\""),
        Ok(_) => panic!("expected a scan error"),
    }
}

#[test]
fn the_first_character_decides_the_class() {
    assert!(matches!(assign_initial_token("a", 1), Ok(TokenType::Identifier)));
    assert!(matches!(assign_initial_token("7", 1), Ok(TokenType::Number)));
    assert!(matches!(assign_initial_token("+", 1), Ok(TokenType::Symbol)));
    assert!(matches!(assign_initial_token(":", 1), Ok(TokenType::Symbol)));
    match assign_initial_token("_", 3) {
        Err(e) => assert_eq!(e.to_string(), "Scan Error on line 3: unable to read \"_\""),
        Ok(_) => panic!("expected a scan error"),
    }
}

#[test]
fn only_identifiers_become_keywords() {
    assert_eq!(check_if_keyword("while", TokenType::Identifier), TokenType::Keyword);
    assert_eq!(check_if_keyword("whale", TokenType::Identifier), TokenType::Identifier);
    assert_eq!(check_if_keyword("while", TokenType::Symbol), TokenType::Symbol);
    assert_eq!(check_if_keyword("12", TokenType::Number), TokenType::Number);
}

#[test]
fn a_finished_lexeme_is_added() {
    let mut tokens = Vec::new();
    assert!(matches!(
        add_token("do", &mut tokens, TokenType::Identifier, 4),
        Ok(TokenType::Keyword)
    ));
    assert!(matches!(add_token("42", &mut tokens, TokenType::Number, 5), Ok(TokenType::Number)));
    assert_eq!(texts(&tokens), vec!["do", "42"]);
    assert_eq!(kinds(&tokens), vec![TokenType::Keyword, TokenType::Number]);
    assert_eq!(lines(&tokens), vec![4, 5]);
}

#[test]
fn an_unfinished_lexeme_is_not_added() {
    let mut tokens = Vec::new();
    match add_token(":", &mut tokens, TokenType::Symbol, 9) {
        Err(e) => assert_eq!(e.to_string(), "Scan Error on line 9: unable to read \":\""),
        Ok(_) => panic!("expected a scan error"),
    }
    assert!(add_token("12", &mut tokens, TokenType::Identifier, 9).is_err());
    assert!(tokens.is_empty());
}

#[test]
fn a_token_is_printed_with_its_class() {
    assert_eq!(Token::new(TokenType::Identifier, "x".to_string(), 1).to_string(), "x: Identifier");
    assert_eq!(Token::new(TokenType::Number, "12".to_string(), 1).to_string(), "12: Number");
    assert_eq!(Token::new(TokenType::Symbol, ":=".to_string(), 1).to_string(), ":=: Symbol");
    assert_eq!(Token::new(TokenType::Keyword, "if".to_string(), 1).to_string(), "if: Keyword");
    assert_eq!(TokenType::Keyword.to_string(), "Keyword");
}

#[test]
fn a_new_token_holds_what_it_was_given() {
    let token = Token::new(TokenType::Number, "7".to_string(), 3);
    assert_eq!(token.kind, TokenType::Number);
    assert_eq!(token.value, "7");
    assert_eq!(token.line, 3);
    let copy = token.clone();
    assert_eq!(copy.kind, TokenType::Number);
    assert_eq!(copy.value, "7");
    assert_eq!(copy.line, 3);
}
