use while_lang::{
    expect, parse, parse_assignment, parse_basestatement, parse_element, parse_expression,
    parse_factor, parse_if_statement, parse_piece, parse_statement, parse_term,
    parse_while_statement, peek_token_match, scan_file, Expected, ParseError, Token,
    TokenStream, TokenType, AST,
};

fn stream(text: &str) -> TokenStream {
    match scan_file(text.to_string()) {
        Ok(tokens) => TokenStream::new(tokens),
        Err(e) => panic!("{}", e.to_string()),
    }
}

fn shape(tree: &AST) -> String {
    let mut text = tree.value.value.clone();
    let slots = [&tree.left, &tree.middle, &tree.right];
    if slots.iter().any(|slot| slot.is_some()) {
        text.push('[');
        for (i, slot) in slots.iter().enumerate() {
            if i > 0 {
                text.push(',');
            }
            if let Some(subtree) = slot {
                text.push_str(&shape(subtree));
            }
        }
        text.push(']');
    }
    text
}

fn program(text: &str) -> String {
    match parse(&mut stream(text)) {
        Ok(tree) => shape(&tree),
        Err(e) => panic!("{}", e.to_string()),
    }
}

fn expression(text: &str) -> String {
    match parse_expression(&mut stream(text)) {
        Ok(tree) => shape(&tree),
        Err(e) => panic!("{}", e.to_string()),
    }
}

fn refusal(text: &str) -> String {
    match parse(&mut stream(text)) {
        Ok(tree) => panic!("parsed as {}", shape(&tree)),
        Err(e) => e.to_string(),
    }
}

fn source(tree: &AST, level: u8) -> String {
    let own = match tree.value.value.as_str() {
        "+" => 4,
        "-" => 3,
        "/" => 2,
        "*" => 1,
        _ => 0,
    };
    match (&tree.left, &tree.middle, &tree.right) {
        (Some(left), None, Some(right)) if own > 0 => {
            let plain = format!(
                "{} {} {}",
                source(left, own),
                tree.value.value,
                source(right, own - 1)
            );
            if own <= level {
                plain
            } else {
                format!("( {} )", plain)
            }
        },
        (Some(left), None, Some(right)) if tree.value.value == ";" => {
            format!("{} ; {}", source(left, 4), source(right, 4))
        },
        (Some(left), None, Some(right)) if tree.value.value == "while" => {
            format!("while {} do {} endwhile", source(left, 4), source(right, 4))
        },
        (Some(left), None, Some(right)) => {
            format!("{} := {}", source(left, 0), source(right, 4))
        },
        (Some(left), Some(middle), Some(right)) => format!(
            "if {} then {} else {} endif",
            source(left, 4),
            source(middle, 4),
            source(right, 4)
        ),
        _ => tree.value.value.clone(),
    }
}

#[test]
fn a_product_binds_tighter_than_a_sum() {
    assert_eq!(expression("2 + 3 * 4"), "+[2,,*[3,,4]]");
    assert_eq!(expression("2 * 3 + 4"), "+[*[2,,3],,4]");
}

#[test]
fn brackets_come_first() {
    assert_eq!(expression("(2 + 3) * 4"), "*[+[2,,3],,4]");
    assert_eq!(expression("((7))"), "7");
}

#[test]
fn the_four_levels_nest_in_order() {
    assert_eq!(expression("a + b - c / d * e"), "+[a,,-[b,,/[c,,*[d,,e]]]]");
    assert_eq!(expression("a * b / c - d + e"), "+[-[/[*[a,,b],,c],,d],,e]");
}

#[test]
fn chains_lean_to_the_left() {
    assert_eq!(expression("1 + 2 + 3"), "+[+[1,,2],,3]");
    assert_eq!(expression("1 - 2 - 3"), "-[-[1,,2],,3]");
    assert_eq!(expression("1 / 2 / 3"), "/[/[1,,2],,3]");
    assert_eq!(expression("1 * 2 * 3"), "*[*[1,,2],,3]");
}

#[test]
fn operands_keep_their_order() {
    assert_eq!(expression("a - b + c"), "+[-[a,,b],,c]");
    assert_eq!(expression("a + b - c"), "+[a,,-[b,,c]]");
}

#[test]
fn each_level_has_its_function() {
    assert_eq!(shape(&parse_term(&mut stream("1 - 2 + 3")).ok().unwrap()), "-[1,,2]");
    assert_eq!(shape(&parse_factor(&mut stream("1 / 2 - 3")).ok().unwrap()), "/[1,,2]");
    assert_eq!(shape(&parse_piece(&mut stream("1 * 2 / 3")).ok().unwrap()), "*[1,,2]");
    assert_eq!(shape(&parse_element(&mut stream("1 * 2")).ok().unwrap()), "1");
    assert_eq!(shape(&parse_element(&mut stream("(1 * 2) + 3")).ok().unwrap()), "*[1,,2]");
}

#[test]
fn a_rule_stops_at_what_it_cannot_read() {
    let mut tokens = stream("1 + 2 ) 3");
    assert_eq!(shape(&parse_expression(&mut tokens).ok().unwrap()), "+[1,,2]");
    assert_eq!(tokens.next().unwrap().value, ")");
    assert_eq!(tokens.next().unwrap().value, "3");
    assert!(tokens.next().is_none());
}

#[test]
fn skip_is_a_program() {
    assert_eq!(program("skip"), "skip");
}

#[test]
fn an_assignment_is_a_program() {
    assert_eq!(program("x := 2 + 3 * 4"), ":=[x,,+[2,,*[3,,4]]]");
    assert_eq!(program("(x) := 1"), ":=[x,,1]");
}

#[test]
fn statements_are_joined_by_semicolons() {
    assert_eq!(program("a := 1 ; b := 2 ; skip"), ";[;[:=[a,,1],,:=[b,,2]],,skip]");
}

#[test]
fn a_while_has_a_condition_and_a_body() {
    assert_eq!(program("while x do x := x - 1 endwhile"), "while[x,,:=[x,,-[x,,1]]]");
    assert_eq!(
        program("while a do skip ; while b do skip endwhile endwhile ; skip"),
        ";[while[a,,;[skip,,while[b,,skip]]],,skip]"
    );
}

#[test]
fn an_if_has_three_subtrees() {
    let tree = match parse(&mut stream("if a then skip else skip endif")) {
        Ok(tree) => tree,
        Err(e) => panic!("{}", e.to_string()),
    };
    assert_eq!(tree.value.value, "if");
    assert_eq!(tree.value.kind, TokenType::Keyword);
    assert_eq!(tree.left.unwrap().value.value, "a");
    assert_eq!(tree.middle.unwrap().value.value, "skip");
    assert_eq!(tree.right.unwrap().value.value, "skip");
    assert_eq!(
        program("if a + 1 then x := 1 ; y := 2 else skip endif"),
        "if[+[a,,1],;[:=[x,,1],,:=[y,,2]],skip]"
    );
}

#[test]
fn each_statement_has_its_function() {
    assert_eq!(shape(&parse_statement(&mut stream("skip ; skip")).ok().unwrap()), ";[skip,,skip]");
    assert_eq!(shape(&parse_basestatement(&mut stream("skip ; skip")).ok().unwrap()), "skip");
    assert_eq!(
        shape(&parse_while_statement(&mut stream("while 1 do skip endwhile")).ok().unwrap()),
        "while[1,,skip]"
    );
    assert_eq!(
        shape(&parse_if_statement(&mut stream("if 1 then skip else skip endif")).ok().unwrap()),
        "if[1,skip,skip]"
    );
    assert_eq!(shape(&parse_assignment(&mut stream("a := b")).ok().unwrap()), ":=[a,,b]");
}

#[test]
fn an_if_without_else_is_refused() {
    match parse(&mut stream("if a then skip endif")) {
        Err(ParseError::InvalidToken { found, expected: Expected::Value(expected) }) => {
            assert_eq!(found.value, "endif");
            assert_eq!(expected, "else");
        },
        _ => panic!("expected an invalid token"),
    }
}

#[test]
fn a_token_after_the_program_is_refused() {
    match parse(&mut stream("x := 1 + 2 3")) {
        Err(ParseError::InvalidToken { found, expected: Expected::Value(expected) }) => {
            assert_eq!(found.value, "3");
            assert_eq!(expected, "EOF");
        },
        _ => panic!("expected an invalid token"),
    }
    assert!(parse(&mut stream("1 + 2 3")).is_err());
    assert!(parse(&mut stream("skip skip")).is_err());
}

#[test]
fn an_expression_alone_is_no_program() {
    match parse(&mut stream("2 + 3 * 4")) {
        Err(ParseError::InvalidToken { found, expected: Expected::Value(expected) }) => {
            assert_eq!(found.value, "+");
            assert_eq!(expected, ":=");
        },
        _ => panic!("expected an invalid token"),
    }
}

#[test]
fn the_end_of_the_tokens_is_reported() {
    assert!(matches!(
        parse(&mut stream("")),
        Err(ParseError::EOF { expected: Expected::Value("( or NUMBER or IDENT") })
    ));
    assert!(matches!(
        parse(&mut stream("x")),
        Err(ParseError::EOF { expected: Expected::Value(":=") })
    ));
    assert!(matches!(
        parse(&mut stream("x := (1")),
        Err(ParseError::EOF { expected: Expected::Value(")") })
    ));
    assert!(matches!(
        parse(&mut stream("while x")),
        Err(ParseError::EOF { expected: Expected::Value("do") })
    ));
    assert!(matches!(
        parse(&mut stream("while x do skip")),
        Err(ParseError::EOF { expected: Expected::Value("endwhile") })
    ));
    assert!(matches!(
        parse(&mut stream("if x")),
        Err(ParseError::EOF { expected: Expected::Value("then") })
    ));
    assert!(matches!(
        parse(&mut stream("if x then skip else skip")),
        Err(ParseError::EOF { expected: Expected::Value("endif") })
    ));
    assert!(matches!(
        parse(&mut stream("x := 1 +")),
        Err(ParseError::EOF { expected: Expected::Value("( or NUMBER or IDENT") })
    ));
}

#[test]
fn errors_are_worded() {
    assert_eq!(
        refusal("x := 1 ;"),
        "Reached end of file without completing valid AST, expected ( or NUMBER or IDENT"
    );
    assert_eq!(refusal("x := 1\ny 2"), "Invalid token on line 2: found y, expected EOF");
    assert_eq!(refusal("x := 1 ;\ny 2"), "Invalid token on line 2: found 2, expected :=");
    assert_eq!(
        refusal("x := 1 + )"),
        "Invalid token on line 1: found ), expected ( or NUMBER or IDENT"
    );
    assert_eq!(refusal("x := (1 ;"), "Invalid token on line 1: found ;, expected )");
    assert_eq!(
        refusal("\n\nwhile x skip endwhile"),
        "Invalid token on line 3: found skip, expected do"
    );
    assert_eq!(refusal("skip\nskip"), "Invalid token on line 2: found skip, expected EOF");
}

#[test]
fn expectations_are_worded() {
    assert_eq!(Expected::Value("endif").to_string(), "endif");
    assert_eq!(Expected::Type(TokenType::Number).to_string(), "token of type Number");
    assert_eq!(
        ParseError::EOF { expected: Expected::Type(TokenType::Identifier) }.to_string(),
        "Reached end of file without completing valid AST, expected token of type Identifier"
    );
}

#[test]
fn an_expectation_is_of_a_class_or_of_a_text() {
    let token = Token::new(TokenType::Identifier, "while".to_string(), 1);
    assert!(Expected::Type(TokenType::Identifier).check(&token));
    assert!(!Expected::Type(TokenType::Keyword).check(&token));
    assert!(Expected::Value("while").check(&token));
    assert!(!Expected::Value("whil").check(&token));
}

#[test]
fn peeking_reads_nothing() {
    let mut tokens = stream("a b");
    assert!(peek_token_match(&tokens, Expected::Value("a")));
    assert!(peek_token_match(&tokens, Expected::Type(TokenType::Identifier)));
    assert!(!peek_token_match(&tokens, Expected::Value("b")));
    assert_eq!(tokens.peek().unwrap().value, "a");
    assert_eq!(tokens.next().unwrap().value, "a");
    assert_eq!(tokens.peek().unwrap().value, "b");
    assert_eq!(tokens.next().unwrap().value, "b");
    assert!(tokens.peek().is_none());
    assert!(!peek_token_match(&tokens, Expected::Value("b")));
    assert!(tokens.next().is_none());
}

#[test]
fn an_unexpected_token_is_read_all_the_same() {
    let mut tokens = stream("a b c");
    assert_eq!(expect(&mut tokens, Expected::Value("a")).ok().unwrap().value, "a");
    match expect(&mut tokens, Expected::Type(TokenType::Number)) {
        Err(ParseError::InvalidToken { found, expected: Expected::Type(TokenType::Number) }) => {
            assert_eq!(found.value, "b")
        },
        _ => panic!("expected an invalid token"),
    }
    assert_eq!(expect(&mut tokens, Expected::Type(TokenType::Identifier)).ok().unwrap().value, "c");
    assert!(matches!(
        expect(&mut tokens, Expected::Value("d")),
        Err(ParseError::EOF { expected: Expected::Value("d") })
    ));
}

#[test]
fn subtrees_are_put_in_their_places() {
    let token = |text: &str| Token::new(TokenType::Identifier, text.to_string(), 1);
    let tree = AST::new(token("r"));
    assert!(tree.left.is_none() && tree.middle.is_none() && tree.right.is_none());
    let tree = tree.left(AST::new(token("a")));
    assert_eq!(shape(&tree), "r[a,,]");
    let tree = tree.right(AST::new(token("c")));
    assert_eq!(shape(&tree), "r[a,,c]");
    let tree = tree.middle(AST::new(token("b")));
    assert_eq!(shape(&tree), "r[a,b,c]");
    let tree = tree.left(AST::new(token("d")));
    assert_eq!(shape(&tree), "r[d,b,c]");
}

#[test]
fn a_tree_is_written_root_first() {
    let tree = parse(&mut stream("if a then x := 1 + 2 else skip endif")).ok().unwrap();
    assert_eq!(
        tree.to_str(0),
        "if: Keyword\n\ta: Identifier\n\t:=: Symbol\n\t\tx: Identifier\n\t\t+: Symbol\n\t\t\t1: Number\n\t\t\t2: Number\n\tskip: Keyword\n"
    );
    let leaf = AST::new(Token::new(TokenType::Number, "7".to_string(), 1));
    assert_eq!(leaf.to_str(2), "\t\t7: Number\n");
}

#[test]
fn the_tokens_of_a_tree_parse_to_the_tree() {
    for text in [
        "skip",
        "x := 1",
        "x := (1 + 2) * 3",
        "x := 1 + 2 * 3",
        "x := 1 - (2 - 3)",
        "x := (1 + 2) + (3 + (4 + 5))",
        "x := a / (b / c) * (d - e)",
        "(x) := ((1))",
        "(a + b) := 1",
        "skip ; x := 1 ; skip",
        "while x - 1 do x := x - 1 ; skip endwhile",
        "if a then skip else while b do skip endwhile endif ; skip",
    ] {
        let tree = parse(&mut stream(text)).ok().unwrap();
        let written = source(&tree, 4);
        let again = parse(&mut stream(&written)).ok().unwrap();
        assert_eq!(shape(&again), shape(&tree));
        assert_eq!(source(&again, 4), written);
    }
}
