//! The grammar of the language, as a model parser over token views.
//!
//! ```text
//! program    ::= statement
//! statement  ::= basestmt { ";" basestmt }
//! basestmt   ::= "while" expression "do" statement "endwhile"
//!              | "if" expression "then" statement "else" statement "endif"
//!              | "skip"
//!              | assignment
//! assignment ::= element ":=" expression
//! expression ::= term { "+" term }
//! term       ::= factor { "-" factor }
//! factor     ::= piece { "/" piece }
//! piece      ::= element { "*" element }
//! element    ::= "(" expression ")" | NUMBER | IDENTIFIER
//! ```

use vstd::prelude::*;
use crate::scanner::{TokenType, TokenView};
use crate::text::decimal_text;

verus! {

/// A syntax tree over token views: a token and up to three subtrees.
pub struct Tree {
    pub value: TokenView,
    pub left: Option<Box<Tree>>,
    pub middle: Option<Box<Tree>>,
    pub right: Option<Box<Tree>>,
}

impl Tree {
    /// A tree without subtrees.
    pub open spec fn leaf(value: TokenView) -> Tree {
        Tree { value, left: None, middle: None, right: None }
    }

    /// A tree with a left and a right subtree.
    pub open spec fn binary(value: TokenView, left: Tree, right: Tree) -> Tree {
        Tree { value, left: Some(Box::new(left)), middle: None, right: Some(Box::new(right)) }
    }

    /// The number of nodes on the longest way from the root down.
    pub open spec fn height(self) -> nat
        decreases self,
    {
        1 + vstd::math::max(
            Tree::slot_height(self.left) as int,
            vstd::math::max(
                Tree::slot_height(self.middle) as int,
                Tree::slot_height(self.right) as int,
            ),
        ) as nat
    }

    /// The height of a subtree, 0 where there is none.
    pub open spec fn slot_height(slot: Option<Box<Tree>>) -> nat
        decreases slot,
    {
        match slot {
            Some(tree) => tree.height(),
            None => 0,
        }
    }

    /// The tree written out, one token on a line, root first, each subtree
    /// one tab further in than its parent.
    pub open spec fn dump(self, level: nat) -> Seq<char>
        decreases self,
    {
        indent(level) + self.value.text() + "\n"@ + Tree::slot_dump(self.left, level + 1)
            + Tree::slot_dump(self.middle, level + 1) + Tree::slot_dump(self.right, level + 1)
    }

    /// A subtree written out, nothing where there is none.
    pub open spec fn slot_dump(slot: Option<Box<Tree>>, level: nat) -> Seq<char>
        decreases slot,
    {
        match slot {
            Some(tree) => tree.dump(level),
            None => Seq::empty(),
        }
    }
}

/// As many tabs as `level` says.
pub open spec fn indent(level: nat) -> Seq<char> {
    Seq::new(level, |i: int| '\t')
}

/// What the parser expects of a token: a class, or an exact text.
pub enum ExpectedView {
    Type(TokenType),
    Value(Seq<char>),
}

impl ExpectedView {
    /// Whether a token meets the expectation.
    pub open spec fn admits(self, token: TokenView) -> bool {
        match self {
            ExpectedView::Type(kind) => token.kind == kind,
            ExpectedView::Value(value) => token.value == value,
        }
    }

    /// The expectation in words.
    pub open spec fn text(self) -> Seq<char> {
        match self {
            ExpectedView::Type(kind) => "token of type "@ + kind.name(),
            ExpectedView::Value(value) => value,
        }
    }
}

/// Why parsing stopped: the tokens ended, or a token was not the expected one.
pub enum ParseErrorView {
    EOF { expected: ExpectedView },
    InvalidToken { found: TokenView, expected: ExpectedView },
}

impl ParseErrorView {
    /// The message a parse error is reported with. An unexpected token is
    /// named with its line.
    pub open spec fn message(self) -> Seq<char> {
        match self {
            ParseErrorView::EOF { expected } =>
                "Reached end of file without completing valid AST, expected "@ + expected.text(),
            ParseErrorView::InvalidToken { found, expected } => "Invalid token on line "@
                + decimal_text(found.line) + ": found "@ + found.value + ", expected "@
                + expected.text(),
        }
    }
}

/// The outcome of a parsing step, and the position of the next unread token.
pub struct Outcome<T> {
    pub result: Result<T, ParseErrorView>,
    pub pos: int,
}

/// The outcome of applying a rule of the grammar.
pub type Parsed = Outcome<Tree>;

/// The step that read up to `pos` and yielded `value`.
pub open spec fn done<T>(value: T, pos: int) -> Outcome<T> {
    Outcome { result: Ok(value), pos }
}

/// The step that read up to `pos` and failed.
pub open spec fn failed<T>(error: ParseErrorView, pos: int) -> Outcome<T> {
    Outcome { result: Err(error), pos }
}

/// The expectation of the exact text `text`.
pub open spec fn word(text: Seq<char>) -> ExpectedView {
    ExpectedView::Value(text)
}

/// What is reported as expected where an element must start.
pub open spec fn an_element() -> ExpectedView {
    ExpectedView::Value("( or NUMBER or IDENT"@)
}

/// What is reported as expected after a complete program.
pub open spec fn the_end() -> ExpectedView {
    ExpectedView::Value("EOF"@)
}

/// Whether there is a next token and it meets the expectation.
pub open spec fn peek_is(tokens: Seq<TokenView>, pos: int, expected: ExpectedView) -> bool {
    0 <= pos < tokens.len() && expected.admits(tokens[pos])
}

/// Whether there is a next token and it has the text `text`.
pub open spec fn peek_word(tokens: Seq<TokenView>, pos: int, text: Seq<char>) -> bool {
    peek_is(tokens, pos, word(text))
}

/// Reads the next token, which must meet the expectation. A token that does
/// not is read all the same.
pub open spec fn expect_at(tokens: Seq<TokenView>, pos: int, expected: ExpectedView) -> Outcome<
    TokenView,
> {
    if !(0 <= pos < tokens.len()) {
        failed(ParseErrorView::EOF { expected }, pos)
    } else if expected.admits(tokens[pos]) {
        done(tokens[pos], pos + 1)
    } else {
        failed(ParseErrorView::InvalidToken { found: tokens[pos], expected }, pos + 1)
    }
}

/// Reads the next token only to report it: nothing acceptable can stand here.
pub open spec fn refuse_at<T>(tokens: Seq<TokenView>, pos: int, expected: ExpectedView) -> Outcome<
    T,
> {
    if 0 <= pos < tokens.len() {
        failed(ParseErrorView::InvalidToken { found: tokens[pos], expected }, pos + 1)
    } else {
        failed(ParseErrorView::EOF { expected }, pos)
    }
}

/// Whether reading went forward from `from` to `to` within the tokens. Every
/// rule that succeeds reads at least one token (`lemma_parse_advances`), so
/// where the model parser asks this after a rule has succeeded, it
/// holds. The question is what makes the parser's definition well founded.
pub open spec fn advanced(tokens: Seq<TokenView>, from: int, to: int) -> bool {
    from < to <= tokens.len()
}

/// The rules of the grammar.
pub enum Rule {
    Statement,
    BaseStatement,
    While,
    If,
    Assignment,
    Expression,
    Term,
    Factor,
    Piece,
    Element,
}

impl Rule {
    /// A rule ranks above every rule that it may apply before it has read a token.
    pub open spec fn rank(self) -> nat {
        match self {
            Rule::Statement => 7,
            Rule::BaseStatement => 6,
            Rule::While => 5,
            Rule::If => 5,
            Rule::Assignment => 5,
            Rule::Expression => 4,
            Rule::Term => 3,
            Rule::Factor => 2,
            Rule::Piece => 1,
            Rule::Element => 0,
        }
    }

    /// The rules of the form `operand { operator operand }`.
    pub open spec fn is_chain(self) -> bool {
        self is Statement || self is Expression || self is Term || self is Factor || self is Piece
    }

    /// The operator that joins the operands of a chain.
    pub open spec fn operator(self) -> Seq<char> {
        match self {
            Rule::Statement => ";"@,
            Rule::Expression => "+"@,
            Rule::Term => "-"@,
            Rule::Factor => "/"@,
            _ => "*"@,
        }
    }

    /// The rule of the operands of a chain.
    pub open spec fn operand(self) -> Rule {
        match self {
            Rule::Statement => Rule::BaseStatement,
            Rule::Expression => Rule::Term,
            Rule::Term => Rule::Factor,
            Rule::Factor => Rule::Piece,
            _ => Rule::Element,
        }
    }
}

/// Applies a rule of the grammar to the tokens from `pos` on, looking one
/// token ahead and never going back.
pub open spec fn parse_rule(rule: Rule, tokens: Seq<TokenView>, pos: int) -> Parsed
    decreases tokens.len() - pos, rule.rank(),
{
    match rule {
        Rule::Statement | Rule::Expression | Rule::Term | Rule::Factor | Rule::Piece => {
            let first = parse_rule(rule.operand(), tokens, pos);
            match first.result {
                Ok(tree) => if advanced(tokens, pos, first.pos) {
                    parse_chain(rule, tokens, first.pos, tree)
                } else {
                    arbitrary()
                },
                Err(_) => first,
            }
        },
        Rule::BaseStatement => {
            if peek_word(tokens, pos, "while"@) {
                parse_rule(Rule::While, tokens, pos)
            } else if peek_word(tokens, pos, "if"@) {
                parse_rule(Rule::If, tokens, pos)
            } else if peek_word(tokens, pos, "skip"@) {
                done(Tree::leaf(tokens[pos]), pos + 1)
            } else {
                parse_rule(Rule::Assignment, tokens, pos)
            }
        },
        Rule::While => {
            let head = expect_at(tokens, pos, word("while"@));
            match head.result {
                Ok(token) => {
                    let condition = parse_rule(Rule::Expression, tokens, head.pos);
                    match condition.result {
                        Ok(left) => parse_body(
                            tokens,
                            pos,
                            condition.pos,
                            "do"@,
                            "endwhile"@,
                            token,
                            left,
                            None,
                        ),
                        Err(_) => condition,
                    }
                },
                Err(e) => failed(e, head.pos),
            }
        },
        Rule::If => {
            let head = expect_at(tokens, pos, word("if"@));
            match head.result {
                Ok(token) => {
                    let condition = parse_rule(Rule::Expression, tokens, head.pos);
                    match condition.result {
                        Ok(left) => {
                            let first = expect_at(tokens, condition.pos, word("then"@));
                            match first.result {
                                Ok(_) => if advanced(tokens, pos, first.pos) {
                                    let branch = parse_rule(Rule::Statement, tokens, first.pos);
                                    match branch.result {
                                        Ok(middle) => parse_body(
                                            tokens,
                                            pos,
                                            branch.pos,
                                            "else"@,
                                            "endif"@,
                                            token,
                                            left,
                                            Some(Box::new(middle)),
                                        ),
                                        Err(_) => branch,
                                    }
                                } else {
                                    arbitrary()
                                },
                                Err(e) => failed(e, first.pos),
                            }
                        },
                        Err(_) => condition,
                    }
                },
                Err(e) => failed(e, head.pos),
            }
        },
        Rule::Assignment => {
            let target = parse_rule(Rule::Element, tokens, pos);
            match target.result {
                Ok(left) => {
                    let sign = expect_at(tokens, target.pos, word(":="@));
                    match sign.result {
                        Ok(token) => if advanced(tokens, pos, sign.pos) {
                            let value = parse_rule(Rule::Expression, tokens, sign.pos);
                            match value.result {
                                Ok(right) => done(Tree::binary(token, left, right), value.pos),
                                Err(_) => value,
                            }
                        } else {
                            arbitrary()
                        },
                        Err(e) => failed(e, sign.pos),
                    }
                },
                Err(_) => target,
            }
        },
        Rule::Element => {
            if peek_word(tokens, pos, "("@) {
                let inner = parse_rule(Rule::Expression, tokens, pos + 1);
                match inner.result {
                    Ok(tree) => {
                        let close = expect_at(tokens, inner.pos, word(")"@));
                        match close.result {
                            Ok(_) => done(tree, close.pos),
                            Err(e) => failed(e, close.pos),
                        }
                    },
                    Err(_) => inner,
                }
            } else if peek_is(tokens, pos, ExpectedView::Type(TokenType::Number)) || peek_is(
                tokens,
                pos,
                ExpectedView::Type(TokenType::Identifier),
            ) {
                done(Tree::leaf(tokens[pos]), pos + 1)
            } else {
                refuse_at(tokens, pos, an_element())
            }
        },
    }
}

/// The rest of a chain whose operands so far are folded into `left`: as long
/// as the chain's operator is next, it is read with one more operand, and
/// the two become the subtrees of the operator's node.
pub open spec fn parse_chain(rule: Rule, tokens: Seq<TokenView>, pos: int, left: Tree) -> Parsed
    decreases tokens.len() - pos, 0nat,
{
    if peek_word(tokens, pos, rule.operator()) {
        let next = parse_rule(rule.operand(), tokens, pos + 1);
        match next.result {
            Ok(right) => if advanced(tokens, pos, next.pos) {
                parse_chain(rule, tokens, next.pos, Tree::binary(tokens[pos], left, right))
            } else {
                arbitrary()
            },
            Err(_) => next,
        }
    } else {
        done(left, pos)
    }
}

/// The last part of a `while` or an `if`, begun at `start` and read up to
/// `pos`: the word `opening`, a statement, the word `closing`. The statement
/// becomes the right subtree of the node of `token`, beside the subtrees
/// read before.
pub open spec fn parse_body(
    tokens: Seq<TokenView>,
    start: int,
    pos: int,
    opening: Seq<char>,
    closing: Seq<char>,
    token: TokenView,
    left: Tree,
    middle: Option<Box<Tree>>,
) -> Parsed
    decreases tokens.len() - start, 4nat,
{
    let open = expect_at(tokens, pos, word(opening));
    match open.result {
        Ok(_) => if advanced(tokens, start, open.pos) {
            let body = parse_rule(Rule::Statement, tokens, open.pos);
            match body.result {
                Ok(right) => {
                    let close = expect_at(tokens, body.pos, word(closing));
                    match close.result {
                        Ok(_) => done(
                            Tree {
                                value: token,
                                left: Some(Box::new(left)),
                                middle,
                                right: Some(Box::new(right)),
                            },
                            close.pos,
                        ),
                        Err(e) => failed(e, close.pos),
                    }
                },
                Err(_) => body,
            }
        } else {
            arbitrary()
        },
        Err(e) => failed(e, open.pos),
    }
}

/// Parses a whole program from `pos` on: one statement, and no token after it.
pub open spec fn parse_program(tokens: Seq<TokenView>, pos: int) -> Parsed {
    let program = parse_rule(Rule::Statement, tokens, pos);
    match program.result {
        Ok(tree) => if 0 <= program.pos < tokens.len() {
            failed(
                ParseErrorView::InvalidToken { found: tokens[program.pos], expected: the_end() },
                program.pos + 1,
            )
        } else {
            program
        },
        Err(_) => program,
    }
}

/// A rule that succeeds has read at least one token, and none beyond the end.
pub proof fn lemma_parse_advances(rule: Rule, tokens: Seq<TokenView>, pos: int)
    ensures
        parse_rule(rule, tokens, pos).result is Ok ==> advanced(
            tokens,
            pos,
            parse_rule(rule, tokens, pos).pos,
        ) && 0 <= pos,
    decreases tokens.len() - pos, rule.rank(),
{
    match rule {
        Rule::Statement | Rule::Expression | Rule::Term | Rule::Factor | Rule::Piece => {
            lemma_parse_advances(rule.operand(), tokens, pos);
            let first = parse_rule(rule.operand(), tokens, pos);
            if let Ok(tree) = first.result {
                lemma_chain_advances(rule, tokens, first.pos, tree);
            }
        },
        Rule::BaseStatement => {
            if peek_word(tokens, pos, "while"@) {
                lemma_parse_advances(Rule::While, tokens, pos);
            } else if peek_word(tokens, pos, "if"@) {
                lemma_parse_advances(Rule::If, tokens, pos);
            } else if peek_word(tokens, pos, "skip"@) {
            } else {
                lemma_parse_advances(Rule::Assignment, tokens, pos);
            }
        },
        Rule::While => {
            let head = expect_at(tokens, pos, word("while"@));
            if let Ok(token) = head.result {
                lemma_parse_advances(Rule::Expression, tokens, head.pos);
                let condition = parse_rule(Rule::Expression, tokens, head.pos);
                if let Ok(left) = condition.result {
                    lemma_body_advances(
                        tokens,
                        pos,
                        condition.pos,
                        "do"@,
                        "endwhile"@,
                        token,
                        left,
                        None,
                    );
                }
            }
        },
        Rule::If => {
            let head = expect_at(tokens, pos, word("if"@));
            if let Ok(token) = head.result {
                lemma_parse_advances(Rule::Expression, tokens, head.pos);
                let condition = parse_rule(Rule::Expression, tokens, head.pos);
                if let Ok(left) = condition.result {
                    let first = expect_at(tokens, condition.pos, word("then"@));
                    if first.result is Ok {
                        lemma_parse_advances(Rule::Statement, tokens, first.pos);
                        let branch = parse_rule(Rule::Statement, tokens, first.pos);
                        if let Ok(middle) = branch.result {
                            lemma_body_advances(
                                tokens,
                                pos,
                                branch.pos,
                                "else"@,
                                "endif"@,
                                token,
                                left,
                                Some(Box::new(middle)),
                            );
                        }
                    }
                }
            }
        },
        Rule::Assignment => {
            lemma_parse_advances(Rule::Element, tokens, pos);
            let target = parse_rule(Rule::Element, tokens, pos);
            if target.result is Ok {
                let sign = expect_at(tokens, target.pos, word(":="@));
                if sign.result is Ok {
                    lemma_parse_advances(Rule::Expression, tokens, sign.pos);
                }
            }
        },
        Rule::Element => {
            if peek_word(tokens, pos, "("@) {
                lemma_parse_advances(Rule::Expression, tokens, pos + 1);
            }
        },
    }
}

/// The rest of a chain, where it succeeds, ends at or after its start and
/// within the tokens.
pub proof fn lemma_chain_advances(rule: Rule, tokens: Seq<TokenView>, pos: int, left: Tree)
    requires
        0 <= pos <= tokens.len(),
    ensures
        parse_chain(rule, tokens, pos, left).result is Ok ==> pos <= parse_chain(
            rule,
            tokens,
            pos,
            left,
        ).pos <= tokens.len(),
    decreases tokens.len() - pos, 0nat,
{
    if peek_word(tokens, pos, rule.operator()) {
        lemma_parse_advances(rule.operand(), tokens, pos + 1);
        let next = parse_rule(rule.operand(), tokens, pos + 1);
        if let Ok(right) = next.result {
            lemma_chain_advances(rule, tokens, next.pos, Tree::binary(tokens[pos], left, right));
        }
    }
}

/// The last part of a `while` or an `if`, where it succeeds, ends after its
/// start and within the tokens.
pub proof fn lemma_body_advances(
    tokens: Seq<TokenView>,
    start: int,
    pos: int,
    opening: Seq<char>,
    closing: Seq<char>,
    token: TokenView,
    left: Tree,
    middle: Option<Box<Tree>>,
)
    requires
        0 <= start < pos,
    ensures
        ({
            let body = parse_body(tokens, start, pos, opening, closing, token, left, middle);
            body.result is Ok ==> pos < body.pos <= tokens.len()
        }),
    decreases tokens.len() - start, 4nat,
{
    let open = expect_at(tokens, pos, word(opening));
    if open.result is Ok {
        lemma_parse_advances(Rule::Statement, tokens, open.pos);
    }
}

} // verus!
