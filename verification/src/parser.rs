//! The recursive-descent parser: from a stream of tokens to a syntax tree.

use vstd::prelude::*;
use vstd::string::StringExecFns;
use crate::derivation::{all_lexical, derives, lemma_derives_parse, lemma_parse_derives};
use crate::grammar::{
    expect_at, indent, lemma_parse_advances, parse_chain, parse_program, parse_rule, peek_is,
    ExpectedView, Parsed, ParseErrorView, Rule, Tree,
};
use crate::scanner::{token_views, Token, TokenType, TokenView};
use crate::text::{format_decimal, text_eq};

verus! {

/// A syntax tree: a token and up to three subtrees.
pub struct AST {
    pub value: Token,
    pub left: Option<Box<AST>>,
    pub middle: Option<Box<AST>>,
    pub right: Option<Box<AST>>,
}

impl AST {
    /// The view of a subtree, where there is one.
    pub open spec fn slot(slot: Option<Box<AST>>) -> Option<Box<Tree>>
        decreases slot,
    {
        match slot {
            Some(node) => Some(Box::new(node.tree())),
            None => None,
        }
    }

    /// The tree over token views that this tree stands for.
    pub open spec fn tree(self) -> Tree
        decreases self,
    {
        Tree {
            value: self.value@,
            left: AST::slot(self.left),
            middle: AST::slot(self.middle),
            right: AST::slot(self.right),
        }
    }

    /// A tree that is only a root.
    pub fn new(value: Token) -> (r: Self)
        ensures
            r@ == Tree::leaf(value@),
    {
        Self { value, left: None, middle: None, right: None }
    }

    /// Puts `node` in the place of the left subtree.
    pub fn left(self, node: Self) -> (r: Self)
        ensures
            r@ == (Tree { left: Some(Box::new(node@)), ..self@ }),
    {
        let mut tree = self;
        tree.left = Some(Box::new(node));
        tree
    }

    /// Puts `node` in the place of the middle subtree.
    pub fn middle(self, node: Self) -> (r: Self)
        ensures
            r@ == (Tree { middle: Some(Box::new(node@)), ..self@ }),
    {
        let mut tree = self;
        tree.middle = Some(Box::new(node));
        tree
    }

    /// Puts `node` in the place of the right subtree.
    pub fn right(self, node: Self) -> (r: Self)
        ensures
            r@ == (Tree { right: Some(Box::new(node@)), ..self@ }),
    {
        let mut tree = self;
        tree.right = Some(Box::new(node));
        tree
    }
}

impl AST {
    /// Writes the tree out, one token on a line, root first, each subtree
    /// one tab further in than its parent. The root is `level` tabs in.
    pub fn to_str(self, level: usize) -> (r: String)
        requires
            level + self@.height() <= usize::MAX,
        ensures
            r@ == self@.dump(level as nat),
        decreases self,
    {
        let AST { value, left, middle, right } = self;
        let mut st = tabs(level);
        st.append(value.to_string().as_str());
        st.append("\n");
        match left {
            Some(subtree) => st.append(subtree.to_str(level + 1).as_str()),
            None => {
            },
        }
        match middle {
            Some(subtree) => st.append(subtree.to_str(level + 1).as_str()),
            None => {
            },
        }
        match right {
            Some(subtree) => st.append(subtree.to_str(level + 1).as_str()),
            None => {
            },
        }
        st
    }
}

/// As many tabs as `level` says.
fn tabs(level: usize) -> (r: String)
    ensures
        r@ == indent(level as nat),
{
    let mut st = String::new();
    let mut i: usize = 0;
    while i < level
        invariant
            i <= level,
            st@ == indent(i as nat),
        decreases level - i,
    {
        st.push('\t');
        i = i + 1;
    }
    st
}

impl View for AST {
    type V = Tree;

    open spec fn view(&self) -> Tree {
        self.tree()
    }
}

/// What the parser expects of a token: a class, or an exact text.
pub enum Expected {
    Type(TokenType),
    Value(&'static str),
}

impl View for Expected {
    type V = ExpectedView;

    open spec fn view(&self) -> ExpectedView {
        match self {
            Expected::Type(kind) => ExpectedView::Type(*kind),
            Expected::Value(value) => ExpectedView::Value(value@),
        }
    }
}

impl Expected {
    /// Whether a token meets the expectation.
    pub fn check(&self, token: &Token) -> (r: bool)
        ensures
            r == self@.admits(token@),
    {
        match self {
            Expected::Type(kind) => token.kind == *kind,
            Expected::Value(value) => text_eq(token.value.as_str(), value),
        }
    }
}

impl Expected {
    /// The expectation in words.
    pub fn to_string(&self) -> (r: String)
        ensures
            r@ == self@.text(),
    {
        match self {
            Expected::Type(kind) => {
                let mut s = "token of type ".to_owned();
                s.append(kind.to_string().as_str());
                s
            },
            Expected::Value(value) => (*value).to_owned(),
        }
    }
}

/// Why parsing stopped: the tokens ended, or a token was not the expected one.
pub enum ParseError {
    EOF { expected: Expected },
    InvalidToken { found: Token, expected: Expected },
}

impl View for ParseError {
    type V = ParseErrorView;

    open spec fn view(&self) -> ParseErrorView {
        match self {
            ParseError::EOF { expected } => ParseErrorView::EOF { expected: expected@ },
            ParseError::InvalidToken { found, expected } => ParseErrorView::InvalidToken {
                found: found@,
                expected: expected@,
            },
        }
    }
}

impl ParseError {
    /// The message the error is reported with.
    pub fn to_string(&self) -> (r: String)
        ensures
            r@ == self@.message(),
    {
        match self {
            ParseError::EOF { expected } => {
                let mut s =
                    "Reached end of file without completing valid AST, expected ".to_owned();
                s.append(expected.to_string().as_str());
                s
            },
            ParseError::InvalidToken { found, expected } => {
                let mut s = "Invalid token on line ".to_owned();
                s.append(format_decimal(found.line as u64).as_str());
                s.append(": found ");
                s.append(found.value.as_str());
                s.append(", expected ");
                s.append(expected.to_string().as_str());
                s
            },
        }
    }
}

/// Tokens to be read one after the other, with one token of lookahead.
pub struct TokenStream {
    tokens: Vec<Token>,
    pos: usize,
}

impl TokenStream {
    #[verifier::type_invariant]
    spec fn in_bounds(&self) -> bool {
        self.pos <= self.tokens.len()
    }

    /// All the tokens of the stream, read or not.
    pub closed spec fn tokens(&self) -> Seq<TokenView> {
        token_views(self.tokens@)
    }

    /// How many tokens have been read.
    pub closed spec fn position(&self) -> int {
        self.pos as int
    }

    /// A stream that will hand out `tokens` from the first on.
    pub fn new(tokens: Vec<Token>) -> (r: Self)
        ensures
            r.tokens() == token_views(tokens@),
            r.position() == 0,
    {
        TokenStream { tokens, pos: 0 }
    }

    /// The next token, which stays in the stream.
    pub fn peek(&self) -> (r: Option<&Token>)
        ensures
            0 <= self.position() <= self.tokens().len(),
            match r {
                Some(token) => self.position() < self.tokens().len() && token@
                    == self.tokens()[self.position()],
                None => self.position() == self.tokens().len(),
            },
    {
        proof {
            use_type_invariant(self);
        }
        if self.pos < self.tokens.len() {
            Some(&self.tokens[self.pos])
        } else {
            None
        }
    }

    /// Takes the next token out of the stream.
    pub fn next(&mut self) -> (r: Option<Token>)
        ensures
            final(self).tokens() == old(self).tokens(),
            0 <= old(self).position() <= old(self).tokens().len(),
            match r {
                Some(token) => old(self).position() < old(self).tokens().len() && token@ == old(
                    self,
                ).tokens()[old(self).position()] && final(self).position() == old(self).position()
                    + 1,
                None => old(self).position() == old(self).tokens().len() && final(self).position()
                    == old(self).position(),
            },
    {
        proof {
            use_type_invariant(&*self);
        }
        if self.pos < self.tokens.len() {
            let token = self.tokens[self.pos].clone();
            self.pos = self.pos + 1;
            Some(token)
        } else {
            None
        }
    }
}

/// Whether a parsing function ended as the grammar says: with the same tree
/// or the same error, and with the stream at the same position.
pub open spec fn parsed_as(r: Result<AST, ParseError>, pos: int, parsed: Parsed) -> bool {
    &&& pos == parsed.pos
    &&& match r {
        Ok(tree) => parsed.result == Ok::<Tree, ParseErrorView>(tree@),
        Err(e) => parsed.result == Err::<Tree, ParseErrorView>(e@),
    }
}

/// Looks at the next token and tells whether it is the expected one.
pub fn peek_token_match(token_stream: &TokenStream, expected: Expected) -> (r: bool)
    ensures
        r == peek_is(token_stream.tokens(), token_stream.position(), expected@),
        0 <= token_stream.position() <= token_stream.tokens().len(),
{
    match token_stream.peek() {
        Some(token) => expected.check(token),
        None => false,
    }
}

/// Takes the next token, which must be the expected one.
pub fn expect(token_stream: &mut TokenStream, expected: Expected) -> (r: Result<Token, ParseError>)
    ensures
        final(token_stream).tokens() == old(token_stream).tokens(),
        0 <= old(token_stream).position() <= old(token_stream).tokens().len(),
        ({
            let step = expect_at(
                old(token_stream).tokens(),
                old(token_stream).position(),
                expected@,
            );
            &&& final(token_stream).position() == step.pos
            &&& match r {
                Ok(token) => step.result == Ok::<TokenView, ParseErrorView>(token@),
                Err(e) => step.result == Err::<TokenView, ParseErrorView>(e@),
            }
        }),
{
    let token: Token = match token_stream.next() {
        Some(token) => token,
        None => {
            return Err(ParseError::EOF { expected });
        },
    };
    if expected.check(&token) {
        Ok(token)
    } else {
        Err(ParseError::InvalidToken { found: token, expected })
    }
}

/// Parses a whole program: one statement, and no token after it. The
/// outcome is that of the model parser. What is accepted is a phrase of
/// the grammar, and of lexical tokens every phrase of the grammar is
/// accepted.
pub fn parse(token_stream: &mut TokenStream) -> (r: Result<AST, ParseError>)
    ensures
        final(token_stream).tokens() == old(token_stream).tokens(),
        parsed_as(
            r,
            final(token_stream).position(),
            parse_program(old(token_stream).tokens(), old(token_stream).position()),
        ),
        r matches Ok(tree) ==> derives(
            Rule::Statement,
            old(token_stream).tokens(),
            old(token_stream).position(),
            old(token_stream).tokens().len() as int,
            tree@,
        ),
        all_lexical(old(token_stream).tokens()) ==> forall|tree: Tree| #[trigger]
            derives(
                Rule::Statement,
                old(token_stream).tokens(),
                old(token_stream).position(),
                old(token_stream).tokens().len() as int,
                tree,
            ) ==> r is Ok && r->Ok_0@ == tree,
{
    let ghost tokens = token_stream.tokens();
    let ghost start = token_stream.position();
    proof {
        lemma_parse_derives(Rule::Statement, tokens, start);
        if all_lexical(tokens) {
            let end = tokens.len() as int;
            assert forall|tree: Tree| #[trigger]
                derives(Rule::Statement, tokens, start, end, tree) implies parse_program(
                tokens,
                start,
            ).result == Ok::<Tree, ParseErrorView>(tree) by {
                lemma_derives_parse(Rule::Statement, tokens, start, end, tree);
            }
        }
    }
    let tree = match parse_statement(token_stream) {
        Ok(tree) => tree,
        Err(e) => {
            return Err(e);
        },
    };
    proof {
        lemma_parse_advances(Rule::Statement, tokens, start);
    }
    match token_stream.next() {
        None => Ok(tree),
        Some(token) => Err(
            ParseError::InvalidToken { found: token, expected: Expected::Value("EOF") },
        ),
    }
}

/// statement ::= basestmt { ";" basestmt }
pub fn parse_statement(token_stream: &mut TokenStream) -> (r: Result<AST, ParseError>)
    ensures
        final(token_stream).tokens() == old(token_stream).tokens(),
        parsed_as(
            r,
            final(token_stream).position(),
            parse_rule(Rule::Statement, old(token_stream).tokens(), old(token_stream).position()),
        ),
        r matches Ok(tree) ==> derives(
            Rule::Statement,
            old(token_stream).tokens(),
            old(token_stream).position(),
            final(token_stream).position(),
            tree@,
        ),
    decreases
        old(token_stream).tokens().len() - old(token_stream).position(),
        Rule::Statement.rank(),
{
    proof {
        lemma_parse_derives(Rule::Statement, token_stream.tokens(), token_stream.position());
    }
    let ghost tokens = token_stream.tokens();
    let ghost start = token_stream.position();
    let mut tree: AST = match parse_basestatement(token_stream) {
        Ok(tree) => tree,
        Err(e) => {
            return Err(e);
        },
    };
    proof {
        lemma_parse_advances(Rule::BaseStatement, tokens, start);
    }
    while peek_token_match(token_stream, Expected::Value(";"))
        invariant
            tokens == old(token_stream).tokens(),
            start == old(token_stream).position(),
            token_stream.tokens() == tokens,
            start < token_stream.position() <= tokens.len(),
            parse_rule(Rule::Statement, tokens, start) == parse_chain(
                Rule::Statement,
                tokens,
                token_stream.position(),
                tree@,
            ),
        decreases tokens.len() - token_stream.position(),
    {
        let ghost pos = token_stream.position();
        let token = token_stream.next().unwrap();
        let right = match parse_basestatement(token_stream) {
            Ok(tree) => tree,
            Err(e) => {
                return Err(e);
            },
        };
        proof {
            lemma_parse_advances(Rule::BaseStatement, tokens, pos + 1);
        }
        tree = AST::new(token).left(tree).right(right);
    }
    Ok(tree)
}

/// basestmt ::= while | if | "skip" | assignment
pub fn parse_basestatement(token_stream: &mut TokenStream) -> (r: Result<AST, ParseError>)
    ensures
        final(token_stream).tokens() == old(token_stream).tokens(),
        parsed_as(
            r,
            final(token_stream).position(),
            parse_rule(
                Rule::BaseStatement,
                old(token_stream).tokens(),
                old(token_stream).position(),
            ),
        ),
        r matches Ok(tree) ==> derives(
            Rule::BaseStatement,
            old(token_stream).tokens(),
            old(token_stream).position(),
            final(token_stream).position(),
            tree@,
        ),
    decreases
        old(token_stream).tokens().len() - old(token_stream).position(),
        Rule::BaseStatement.rank(),
{
    proof {
        lemma_parse_derives(Rule::BaseStatement, token_stream.tokens(), token_stream.position());
    }
    if peek_token_match(token_stream, Expected::Value("while")) {
        parse_while_statement(token_stream)
    } else if peek_token_match(token_stream, Expected::Value("if")) {
        parse_if_statement(token_stream)
    } else if peek_token_match(token_stream, Expected::Value("skip")) {
        Ok(AST::new(token_stream.next().unwrap()))
    } else {
        parse_assignment(token_stream)
    }
}

/// while ::= "while" expression "do" statement "endwhile"
pub fn parse_while_statement(token_stream: &mut TokenStream) -> (r: Result<AST, ParseError>)
    ensures
        final(token_stream).tokens() == old(token_stream).tokens(),
        parsed_as(
            r,
            final(token_stream).position(),
            parse_rule(Rule::While, old(token_stream).tokens(), old(token_stream).position()),
        ),
        r matches Ok(tree) ==> derives(
            Rule::While,
            old(token_stream).tokens(),
            old(token_stream).position(),
            final(token_stream).position(),
            tree@,
        ),
    decreases
        old(token_stream).tokens().len() - old(token_stream).position(),
        Rule::While.rank(),
{
    proof {
        lemma_parse_derives(Rule::While, token_stream.tokens(), token_stream.position());
    }
    let ghost tokens = token_stream.tokens();
    let ghost start = token_stream.position();
    let head = match expect(token_stream, Expected::Value("while")) {
        Ok(token) => token,
        Err(e) => {
            return Err(e);
        },
    };
    let condition = match parse_expression(token_stream) {
        Ok(tree) => tree,
        Err(e) => {
            return Err(e);
        },
    };
    proof {
        lemma_parse_advances(Rule::Expression, tokens, start + 1);
        reveal_with_fuel(parse_rule, 2);
    }
    let mut tree = AST::new(head).left(condition);
    match expect(token_stream, Expected::Value("do")) {
        Ok(_) => {},
        Err(e) => {
            return Err(e);
        },
    }
    let body = match parse_statement(token_stream) {
        Ok(tree) => tree,
        Err(e) => {
            return Err(e);
        },
    };
    tree = tree.right(body);
    match expect(token_stream, Expected::Value("endwhile")) {
        Ok(_) => {},
        Err(e) => {
            return Err(e);
        },
    }
    Ok(tree)
}

/// if ::= "if" expression "then" statement "else" statement "endif"
pub fn parse_if_statement(token_stream: &mut TokenStream) -> (r: Result<AST, ParseError>)
    ensures
        final(token_stream).tokens() == old(token_stream).tokens(),
        parsed_as(
            r,
            final(token_stream).position(),
            parse_rule(Rule::If, old(token_stream).tokens(), old(token_stream).position()),
        ),
        r matches Ok(tree) ==> derives(
            Rule::If,
            old(token_stream).tokens(),
            old(token_stream).position(),
            final(token_stream).position(),
            tree@,
        ),
    decreases
        old(token_stream).tokens().len() - old(token_stream).position(),
        Rule::If.rank(),
{
    proof {
        lemma_parse_derives(Rule::If, token_stream.tokens(), token_stream.position());
    }
    let ghost tokens = token_stream.tokens();
    let ghost start = token_stream.position();
    let head = match expect(token_stream, Expected::Value("if")) {
        Ok(token) => token,
        Err(e) => {
            return Err(e);
        },
    };
    let condition = match parse_expression(token_stream) {
        Ok(tree) => tree,
        Err(e) => {
            return Err(e);
        },
    };
    proof {
        lemma_parse_advances(Rule::Expression, tokens, start + 1);
        reveal_with_fuel(parse_rule, 2);
    }
    let mut tree = AST::new(head).left(condition);
    match expect(token_stream, Expected::Value("then")) {
        Ok(_) => {},
        Err(e) => {
            return Err(e);
        },
    }
    let ghost first = token_stream.position();
    let branch = match parse_statement(token_stream) {
        Ok(tree) => tree,
        Err(e) => {
            return Err(e);
        },
    };
    proof {
        lemma_parse_advances(Rule::Statement, tokens, first);
    }
    tree = tree.middle(branch);
    match expect(token_stream, Expected::Value("else")) {
        Ok(_) => {},
        Err(e) => {
            return Err(e);
        },
    }
    let other = match parse_statement(token_stream) {
        Ok(tree) => tree,
        Err(e) => {
            return Err(e);
        },
    };
    tree = tree.right(other);
    match expect(token_stream, Expected::Value("endif")) {
        Ok(_) => {},
        Err(e) => {
            return Err(e);
        },
    }
    Ok(tree)
}

/// assignment ::= element ":=" expression
pub fn parse_assignment(token_stream: &mut TokenStream) -> (r: Result<AST, ParseError>)
    ensures
        final(token_stream).tokens() == old(token_stream).tokens(),
        parsed_as(
            r,
            final(token_stream).position(),
            parse_rule(Rule::Assignment, old(token_stream).tokens(), old(token_stream).position()),
        ),
        r matches Ok(tree) ==> derives(
            Rule::Assignment,
            old(token_stream).tokens(),
            old(token_stream).position(),
            final(token_stream).position(),
            tree@,
        ),
    decreases
        old(token_stream).tokens().len() - old(token_stream).position(),
        Rule::Assignment.rank(),
{
    proof {
        lemma_parse_derives(Rule::Assignment, token_stream.tokens(), token_stream.position());
    }
    let ghost tokens = token_stream.tokens();
    let ghost start = token_stream.position();
    let target = match parse_element(token_stream) {
        Ok(tree) => tree,
        Err(e) => {
            return Err(e);
        },
    };
    proof {
        lemma_parse_advances(Rule::Element, tokens, start);
    }
    let sign = match expect(token_stream, Expected::Value(":=")) {
        Ok(token) => token,
        Err(e) => {
            return Err(e);
        },
    };
    let value = match parse_expression(token_stream) {
        Ok(tree) => tree,
        Err(e) => {
            return Err(e);
        },
    };
    Ok(AST::new(sign).left(target).right(value))
}

/// expression ::= term { "+" term }
pub fn parse_expression(token_stream: &mut TokenStream) -> (r: Result<AST, ParseError>)
    ensures
        final(token_stream).tokens() == old(token_stream).tokens(),
        parsed_as(
            r,
            final(token_stream).position(),
            parse_rule(Rule::Expression, old(token_stream).tokens(), old(token_stream).position()),
        ),
        r matches Ok(tree) ==> derives(
            Rule::Expression,
            old(token_stream).tokens(),
            old(token_stream).position(),
            final(token_stream).position(),
            tree@,
        ),
    decreases
        old(token_stream).tokens().len() - old(token_stream).position(),
        Rule::Expression.rank(),
{
    proof {
        lemma_parse_derives(Rule::Expression, token_stream.tokens(), token_stream.position());
    }
    let ghost tokens = token_stream.tokens();
    let ghost start = token_stream.position();
    let mut tree: AST = match parse_term(token_stream) {
        Ok(tree) => tree,
        Err(e) => {
            return Err(e);
        },
    };
    proof {
        lemma_parse_advances(Rule::Term, tokens, start);
    }
    while peek_token_match(token_stream, Expected::Value("+"))
        invariant
            tokens == old(token_stream).tokens(),
            start == old(token_stream).position(),
            token_stream.tokens() == tokens,
            start < token_stream.position() <= tokens.len(),
            parse_rule(Rule::Expression, tokens, start) == parse_chain(
                Rule::Expression,
                tokens,
                token_stream.position(),
                tree@,
            ),
        decreases tokens.len() - token_stream.position(),
    {
        let ghost pos = token_stream.position();
        let token = token_stream.next().unwrap();
        let right = match parse_term(token_stream) {
            Ok(tree) => tree,
            Err(e) => {
                return Err(e);
            },
        };
        proof {
            lemma_parse_advances(Rule::Term, tokens, pos + 1);
        }
        tree = AST::new(token).left(tree).right(right);
    }
    Ok(tree)
}

/// term ::= factor { "-" factor }
pub fn parse_term(token_stream: &mut TokenStream) -> (r: Result<AST, ParseError>)
    ensures
        final(token_stream).tokens() == old(token_stream).tokens(),
        parsed_as(
            r,
            final(token_stream).position(),
            parse_rule(Rule::Term, old(token_stream).tokens(), old(token_stream).position()),
        ),
        r matches Ok(tree) ==> derives(
            Rule::Term,
            old(token_stream).tokens(),
            old(token_stream).position(),
            final(token_stream).position(),
            tree@,
        ),
    decreases
        old(token_stream).tokens().len() - old(token_stream).position(),
        Rule::Term.rank(),
{
    proof {
        lemma_parse_derives(Rule::Term, token_stream.tokens(), token_stream.position());
    }
    let ghost tokens = token_stream.tokens();
    let ghost start = token_stream.position();
    let mut tree: AST = match parse_factor(token_stream) {
        Ok(tree) => tree,
        Err(e) => {
            return Err(e);
        },
    };
    proof {
        lemma_parse_advances(Rule::Factor, tokens, start);
    }
    while peek_token_match(token_stream, Expected::Value("-"))
        invariant
            tokens == old(token_stream).tokens(),
            start == old(token_stream).position(),
            token_stream.tokens() == tokens,
            start < token_stream.position() <= tokens.len(),
            parse_rule(Rule::Term, tokens, start) == parse_chain(
                Rule::Term,
                tokens,
                token_stream.position(),
                tree@,
            ),
        decreases tokens.len() - token_stream.position(),
    {
        let ghost pos = token_stream.position();
        let token = token_stream.next().unwrap();
        let right = match parse_factor(token_stream) {
            Ok(tree) => tree,
            Err(e) => {
                return Err(e);
            },
        };
        proof {
            lemma_parse_advances(Rule::Factor, tokens, pos + 1);
        }
        tree = AST::new(token).left(tree).right(right);
    }
    Ok(tree)
}

/// factor ::= piece { "/" piece }
pub fn parse_factor(token_stream: &mut TokenStream) -> (r: Result<AST, ParseError>)
    ensures
        final(token_stream).tokens() == old(token_stream).tokens(),
        parsed_as(
            r,
            final(token_stream).position(),
            parse_rule(Rule::Factor, old(token_stream).tokens(), old(token_stream).position()),
        ),
        r matches Ok(tree) ==> derives(
            Rule::Factor,
            old(token_stream).tokens(),
            old(token_stream).position(),
            final(token_stream).position(),
            tree@,
        ),
    decreases
        old(token_stream).tokens().len() - old(token_stream).position(),
        Rule::Factor.rank(),
{
    proof {
        lemma_parse_derives(Rule::Factor, token_stream.tokens(), token_stream.position());
    }
    let ghost tokens = token_stream.tokens();
    let ghost start = token_stream.position();
    let mut tree: AST = match parse_piece(token_stream) {
        Ok(tree) => tree,
        Err(e) => {
            return Err(e);
        },
    };
    proof {
        lemma_parse_advances(Rule::Piece, tokens, start);
    }
    while peek_token_match(token_stream, Expected::Value("/"))
        invariant
            tokens == old(token_stream).tokens(),
            start == old(token_stream).position(),
            token_stream.tokens() == tokens,
            start < token_stream.position() <= tokens.len(),
            parse_rule(Rule::Factor, tokens, start) == parse_chain(
                Rule::Factor,
                tokens,
                token_stream.position(),
                tree@,
            ),
        decreases tokens.len() - token_stream.position(),
    {
        let ghost pos = token_stream.position();
        let token = token_stream.next().unwrap();
        let right = match parse_piece(token_stream) {
            Ok(tree) => tree,
            Err(e) => {
                return Err(e);
            },
        };
        proof {
            lemma_parse_advances(Rule::Piece, tokens, pos + 1);
        }
        tree = AST::new(token).left(tree).right(right);
    }
    Ok(tree)
}

/// piece ::= element { "*" element }
pub fn parse_piece(token_stream: &mut TokenStream) -> (r: Result<AST, ParseError>)
    ensures
        final(token_stream).tokens() == old(token_stream).tokens(),
        parsed_as(
            r,
            final(token_stream).position(),
            parse_rule(Rule::Piece, old(token_stream).tokens(), old(token_stream).position()),
        ),
        r matches Ok(tree) ==> derives(
            Rule::Piece,
            old(token_stream).tokens(),
            old(token_stream).position(),
            final(token_stream).position(),
            tree@,
        ),
    decreases
        old(token_stream).tokens().len() - old(token_stream).position(),
        Rule::Piece.rank(),
{
    proof {
        lemma_parse_derives(Rule::Piece, token_stream.tokens(), token_stream.position());
    }
    let ghost tokens = token_stream.tokens();
    let ghost start = token_stream.position();
    let mut tree: AST = match parse_element(token_stream) {
        Ok(tree) => tree,
        Err(e) => {
            return Err(e);
        },
    };
    proof {
        lemma_parse_advances(Rule::Element, tokens, start);
    }
    while peek_token_match(token_stream, Expected::Value("*"))
        invariant
            tokens == old(token_stream).tokens(),
            start == old(token_stream).position(),
            token_stream.tokens() == tokens,
            start < token_stream.position() <= tokens.len(),
            parse_rule(Rule::Piece, tokens, start) == parse_chain(
                Rule::Piece,
                tokens,
                token_stream.position(),
                tree@,
            ),
        decreases tokens.len() - token_stream.position(),
    {
        let ghost pos = token_stream.position();
        let token = token_stream.next().unwrap();
        let right = match parse_element(token_stream) {
            Ok(tree) => tree,
            Err(e) => {
                return Err(e);
            },
        };
        proof {
            lemma_parse_advances(Rule::Element, tokens, pos + 1);
        }
        tree = AST::new(token).left(tree).right(right);
    }
    Ok(tree)
}

/// element ::= "(" expression ")" | NUMBER | IDENTIFIER
pub fn parse_element(token_stream: &mut TokenStream) -> (r: Result<AST, ParseError>)
    ensures
        final(token_stream).tokens() == old(token_stream).tokens(),
        parsed_as(
            r,
            final(token_stream).position(),
            parse_rule(Rule::Element, old(token_stream).tokens(), old(token_stream).position()),
        ),
        r matches Ok(tree) ==> derives(
            Rule::Element,
            old(token_stream).tokens(),
            old(token_stream).position(),
            final(token_stream).position(),
            tree@,
        ),
    decreases
        old(token_stream).tokens().len() - old(token_stream).position(),
        Rule::Element.rank(),
{
    proof {
        lemma_parse_derives(Rule::Element, token_stream.tokens(), token_stream.position());
    }
    if peek_token_match(token_stream, Expected::Value("(")) {
        match expect(token_stream, Expected::Value("(")) {
            Ok(_) => {},
            Err(e) => {
                return Err(e);
            },
        }
        let tree = match parse_expression(token_stream) {
            Ok(tree) => tree,
            Err(e) => {
                return Err(e);
            },
        };
        match expect(token_stream, Expected::Value(")")) {
            Ok(_) => {},
            Err(e) => {
                return Err(e);
            },
        }
        Ok(tree)
    } else if peek_token_match(token_stream, Expected::Type(TokenType::Number))
        || peek_token_match(token_stream, Expected::Type(TokenType::Identifier)) {
        Ok(AST::new(token_stream.next().unwrap()))
    } else {
        let expected = Expected::Value("( or NUMBER or IDENT");
        match token_stream.next() {
            Some(token) => Err(ParseError::InvalidToken { found: token, expected }),
            None => Err(ParseError::EOF { expected }),
        }
    }
}

} // verus!
