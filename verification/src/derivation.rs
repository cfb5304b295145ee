//! The grammar as a relation between tokens and trees, and the laws that
//! tie the model parser to it.

use vstd::prelude::*;
use crate::grammar::{
    advanced, done, expect_at, lemma_parse_advances, parse_body, parse_chain, parse_program,
    parse_rule, peek_word, word, ParseErrorView, Rule, Tree,
};
use crate::scanner::{TokenType, TokenView};

verus! {

/// The texts of the grammar's symbols and keywords.
pub open spec fn is_reserved(text: Seq<char>) -> bool {
    ||| text == "("@
    ||| text == ")"@
    ||| text == "+"@
    ||| text == "-"@
    ||| text == "*"@
    ||| text == "/"@
    ||| text == ";"@
    ||| text == ":="@
    ||| text == "if"@
    ||| text == "then"@
    ||| text == "else"@
    ||| text == "endif"@
    ||| text == "while"@
    ||| text == "do"@
    ||| text == "endwhile"@
    ||| text == "skip"@
}

/// The symbols and keywords are told apart by their length and their first
/// character.
pub proof fn lemma_reserved_words()
    ensures
        "("@.len() == 1 && "("@[0] == '(',
        ")"@.len() == 1 && ")"@[0] == ')',
        "+"@.len() == 1 && "+"@[0] == '+',
        "-"@.len() == 1 && "-"@[0] == '-',
        "*"@.len() == 1 && "*"@[0] == '*',
        "/"@.len() == 1 && "/"@[0] == '/',
        ";"@.len() == 1 && ";"@[0] == ';',
        ":="@.len() == 2 && ":="@[0] == ':',
        "if"@.len() == 2 && "if"@[0] == 'i',
        "do"@.len() == 2 && "do"@[0] == 'd',
        "then"@.len() == 4 && "then"@[0] == 't',
        "else"@.len() == 4 && "else"@[0] == 'e',
        "skip"@.len() == 4 && "skip"@[0] == 's',
        "endif"@.len() == 5 && "endif"@[0] == 'e',
        "while"@.len() == 5 && "while"@[0] == 'w',
        "endwhile"@.len() == 8,
{
    reveal_strlit("(");
    reveal_strlit(")");
    reveal_strlit("+");
    reveal_strlit("-");
    reveal_strlit("*");
    reveal_strlit("/");
    reveal_strlit(";");
    reveal_strlit(":=");
    reveal_strlit("if");
    reveal_strlit("do");
    reveal_strlit("then");
    reveal_strlit("else");
    reveal_strlit("skip");
    reveal_strlit("endif");
    reveal_strlit("while");
    reveal_strlit("endwhile");
}

/// Whether a token is what a scanner may hand out: a number or an
/// identifier never has the text of a symbol or a keyword.
pub open spec fn is_lexical(token: TokenView) -> bool {
    is_operand(token) ==> !is_reserved(token.value)
}

/// Whether all tokens are what a scanner may hand out.
pub open spec fn all_lexical(tokens: Seq<TokenView>) -> bool {
    forall|i: int| 0 <= i < tokens.len() ==> is_lexical(#[trigger] tokens[i])
}

impl Rule {
    /// Whether a token with the text `text`, standing right after a phrase
    /// of the rule, would be read as going on with it: the operators of the
    /// rule's chain and of the chains below it.
    pub open spec fn goes_on_with(self, text: Seq<char>) -> bool {
        match self {
            Rule::Statement => text == ";"@ || text == "+"@ || text == "-"@ || text == "/"@
                || text == "*"@,
            Rule::BaseStatement | Rule::Assignment | Rule::Expression => text == "+"@ || text
                == "-"@ || text == "/"@ || text == "*"@,
            Rule::Term => text == "-"@ || text == "/"@ || text == "*"@,
            Rule::Factor => text == "/"@ || text == "*"@,
            Rule::Piece => text == "*"@,
            Rule::While | Rule::If | Rule::Element => false,
        }
    }
}

/// Whether a phrase of the rule that reaches up to `hi` ends there: no token
/// follows, or one that does not go on with the phrase.
pub open spec fn ends_at(rule: Rule, tokens: Seq<TokenView>, hi: int) -> bool {
    0 <= hi < tokens.len() ==> !rule.goes_on_with(tokens[hi].value)
}

/// Whether a token may stand for a number or a variable.
pub open spec fn is_operand(token: TokenView) -> bool {
    token.kind == TokenType::Number || token.kind == TokenType::Identifier
}

/// Whether the token at `pos` has the text `text`.
pub open spec fn word_at(tokens: Seq<TokenView>, pos: int, text: Seq<char>) -> bool {
    0 <= pos < tokens.len() && tokens[pos].value == text
}

/// Whether `tree` is the node of the token at `mid` over the subtrees `left`
/// and `right`, and that token has the text `text`.
pub open spec fn joined(tokens: Seq<TokenView>, mid: int, text: Seq<char>, tree: Tree) -> bool {
    &&& 0 <= mid < tokens.len()
    &&& tokens[mid].value == text
    &&& tree.value == tokens[mid]
    &&& tree.left is Some
    &&& tree.middle is None
    &&& tree.right is Some
}

/// Whether the tokens from `lo` up to `hi` are a phrase of `rule` whose
/// syntax tree is `tree`: the grammar, read as a relation.
pub open spec fn derives(rule: Rule, tokens: Seq<TokenView>, lo: int, hi: int, tree: Tree) -> bool
    decreases hi - lo, rule.rank(),
{
    &&& 0 <= lo < hi <= tokens.len()
    &&& match rule {
        Rule::Statement | Rule::Expression | Rule::Term | Rule::Factor | Rule::Piece => {
            ||| derives(rule.operand(), tokens, lo, hi, tree)
            ||| exists|mid: int|
                lo < mid < hi && #[trigger] joined(tokens, mid, rule.operator(), tree) && derives(
                    rule,
                    tokens,
                    lo,
                    mid,
                    *tree.left->0,
                ) && derives(rule.operand(), tokens, mid + 1, hi, *tree.right->0)
        },
        Rule::BaseStatement => {
            ||| derives(Rule::While, tokens, lo, hi, tree)
            ||| derives(Rule::If, tokens, lo, hi, tree)
            ||| hi == lo + 1 && tokens[lo].value == "skip"@ && tree == Tree::leaf(tokens[lo])
            ||| derives(Rule::Assignment, tokens, lo, hi, tree)
        },
        Rule::While => {
            &&& tokens[lo].value == "while"@
            &&& tokens[hi - 1].value == "endwhile"@
            &&& tree.value == tokens[lo]
            &&& tree.left is Some
            &&& tree.middle is None
            &&& tree.right is Some
            &&& exists|mid: int|
                lo < mid < hi - 1 && #[trigger] word_at(tokens, mid, "do"@) && derives(
                    Rule::Expression,
                    tokens,
                    lo + 1,
                    mid,
                    *tree.left->0,
                ) && derives(Rule::Statement, tokens, mid + 1, hi - 1, *tree.right->0)
        },
        Rule::If => {
            &&& tokens[lo].value == "if"@
            &&& tokens[hi - 1].value == "endif"@
            &&& tree.value == tokens[lo]
            &&& tree.left is Some
            &&& tree.middle is Some
            &&& tree.right is Some
            &&& exists|first: int, second: int|
                lo < first < second < hi - 1 && #[trigger] word_at(tokens, first, "then"@)
                    && #[trigger] word_at(tokens, second, "else"@) && derives(
                    Rule::Expression,
                    tokens,
                    lo + 1,
                    first,
                    *tree.left->0,
                ) && derives(Rule::Statement, tokens, first + 1, second, *tree.middle->0)
                    && derives(Rule::Statement, tokens, second + 1, hi - 1, *tree.right->0)
        },
        Rule::Assignment => {
            exists|mid: int|
                lo < mid < hi && #[trigger] joined(tokens, mid, ":="@, tree) && derives(
                    Rule::Element,
                    tokens,
                    lo,
                    mid,
                    *tree.left->0,
                ) && derives(Rule::Expression, tokens, mid + 1, hi, *tree.right->0)
        },
        Rule::Element => {
            ||| hi == lo + 1 && is_operand(tokens[lo]) && tree == Tree::leaf(tokens[lo])
            ||| {
                &&& lo + 1 < hi - 1
                &&& tokens[lo].value == "("@
                &&& tokens[hi - 1].value == ")"@
                &&& derives(Rule::Expression, tokens, lo + 1, hi - 1, tree)
            }
        },
    }
}

/// What the model parser accepts is a phrase of the grammar: where a
/// rule succeeds, the tokens it has read derive the tree it gives. So the
/// tree nests its operators as the grammar's levels do, and holds the
/// tokens in the order of the source.
pub proof fn lemma_parse_derives(rule: Rule, tokens: Seq<TokenView>, pos: int)
    ensures
        parse_rule(rule, tokens, pos).result matches Ok(tree) ==> derives(
            rule,
            tokens,
            pos,
            parse_rule(rule, tokens, pos).pos,
            tree,
        ),
    decreases tokens.len() - pos, rule.rank(),
{
    lemma_parse_advances(rule, tokens, pos);
    match rule {
        Rule::Statement | Rule::Expression | Rule::Term | Rule::Factor | Rule::Piece => {
            lemma_parse_derives(rule.operand(), tokens, pos);
            lemma_parse_advances(rule.operand(), tokens, pos);
            let first = parse_rule(rule.operand(), tokens, pos);
            if let Ok(tree) = first.result {
                lemma_chain_derives(rule, tokens, pos, first.pos, tree);
            }
        },
        Rule::BaseStatement => {
            if peek_word(tokens, pos, "while"@) {
                lemma_parse_derives(Rule::While, tokens, pos);
            } else if peek_word(tokens, pos, "if"@) {
                lemma_parse_derives(Rule::If, tokens, pos);
            } else if peek_word(tokens, pos, "skip"@) {
            } else {
                lemma_parse_derives(Rule::Assignment, tokens, pos);
            }
        },
        Rule::While => {
            let head = expect_at(tokens, pos, word("while"@));
            if let Ok(token) = head.result {
                lemma_parse_derives(Rule::Expression, tokens, head.pos);
                lemma_parse_advances(Rule::Expression, tokens, head.pos);
                let condition = parse_rule(Rule::Expression, tokens, head.pos);
                if let Ok(left) = condition.result {
                    lemma_body_derives(
                        tokens,
                        pos,
                        condition.pos,
                        "do"@,
                        "endwhile"@,
                        token,
                        left,
                        None,
                    );
                }
            }
        },
        Rule::If => {
            let head = expect_at(tokens, pos, word("if"@));
            if let Ok(token) = head.result {
                lemma_parse_derives(Rule::Expression, tokens, head.pos);
                lemma_parse_advances(Rule::Expression, tokens, head.pos);
                let condition = parse_rule(Rule::Expression, tokens, head.pos);
                if let Ok(left) = condition.result {
                    let first = expect_at(tokens, condition.pos, word("then"@));
                    if first.result is Ok {
                        lemma_parse_derives(Rule::Statement, tokens, first.pos);
                        lemma_parse_advances(Rule::Statement, tokens, first.pos);
                        let branch = parse_rule(Rule::Statement, tokens, first.pos);
                        if let Ok(middle) = branch.result {
                            lemma_body_derives(
                                tokens,
                                pos,
                                branch.pos,
                                "else"@,
                                "endif"@,
                                token,
                                left,
                                Some(Box::new(middle)),
                            );
                            let body = parse_body(
                                tokens,
                                pos,
                                branch.pos,
                                "else"@,
                                "endif"@,
                                token,
                                left,
                                Some(Box::new(middle)),
                            );
                            if body.result is Ok {
                                assert(word_at(tokens, condition.pos, "then"@));
                            }
                        }
                    }
                }
            }
        },
        Rule::Assignment => {
            lemma_parse_derives(Rule::Element, tokens, pos);
            lemma_parse_advances(Rule::Element, tokens, pos);
            let target = parse_rule(Rule::Element, tokens, pos);
            if let Ok(left) = target.result {
                let sign = expect_at(tokens, target.pos, word(":="@));
                if let Ok(token) = sign.result {
                    lemma_parse_derives(Rule::Expression, tokens, sign.pos);
                    let value = parse_rule(Rule::Expression, tokens, sign.pos);
                    if let Ok(right) = value.result {
                        assert(joined(
                            tokens,
                            target.pos,
                            ":="@,
                            Tree::binary(token, left, right),
                        ));
                    }
                }
            }
        },
        Rule::Element => {
            if peek_word(tokens, pos, "("@) {
                lemma_parse_derives(Rule::Expression, tokens, pos + 1);
                lemma_parse_advances(Rule::Expression, tokens, pos + 1);
            }
        },
    }
}

/// The rest of a chain, read after a phrase of the chain's rule, makes a
/// longer phrase of that rule.
pub proof fn lemma_chain_derives(
    rule: Rule,
    tokens: Seq<TokenView>,
    lo: int,
    pos: int,
    left: Tree,
)
    requires
        rule.is_chain(),
        derives(rule, tokens, lo, pos, left),
    ensures
        parse_chain(rule, tokens, pos, left).result matches Ok(tree) ==> derives(
            rule,
            tokens,
            lo,
            parse_chain(rule, tokens, pos, left).pos,
            tree,
        ),
    decreases tokens.len() - pos, 0nat,
{
    if peek_word(tokens, pos, rule.operator()) {
        lemma_parse_derives(rule.operand(), tokens, pos + 1);
        lemma_parse_advances(rule.operand(), tokens, pos + 1);
        let next = parse_rule(rule.operand(), tokens, pos + 1);
        if let Ok(right) = next.result {
            let tree = Tree::binary(tokens[pos], left, right);
            assert(joined(tokens, pos, rule.operator(), tree));
            lemma_chain_derives(rule, tokens, lo, next.pos, tree);
        }
    }
}

/// The last part of a `while` or an `if`, where it succeeds, has read the
/// opening word, a statement and the closing word.
pub proof fn lemma_body_derives(
    tokens: Seq<TokenView>,
    start: int,
    pos: int,
    opening: Seq<char>,
    closing: Seq<char>,
    token: TokenView,
    left: Tree,
    middle: Option<Box<Tree>>,
)
    requires
        0 <= start < pos,
    ensures
        ({
            let body = parse_body(tokens, start, pos, opening, closing, token, left, middle);
            body.result matches Ok(tree) ==> {
                &&& word_at(tokens, pos, opening)
                &&& word_at(tokens, body.pos - 1, closing)
                &&& tree.value == token
                &&& tree.left == Some(Box::new(left))
                &&& tree.middle == middle
                &&& tree.right is Some
                &&& derives(Rule::Statement, tokens, pos + 1, body.pos - 1, *tree.right->0)
            }
        }),
    decreases tokens.len() - start, 4nat,
{
    let open = expect_at(tokens, pos, word(opening));
    if open.result is Ok {
        lemma_parse_derives(Rule::Statement, tokens, open.pos);
        lemma_parse_advances(Rule::Statement, tokens, open.pos);
    }
}

/// An element starts with an opening bracket or with an operand, and so
/// with none of the words that start another statement.
pub proof fn lemma_element_start(tokens: Seq<TokenView>, lo: int, hi: int, tree: Tree)
    requires
        all_lexical(tokens),
        derives(Rule::Element, tokens, lo, hi, tree),
    ensures
        tokens[lo].value != "while"@,
        tokens[lo].value != "if"@,
        tokens[lo].value != "skip"@,
{
    lemma_reserved_words();
}

/// The model parser accepts every phrase of the grammar: where lexical
/// tokens derive a tree by a rule, and the phrase ends where the derivation
/// does, the rule succeeds there with that tree.
pub proof fn lemma_derives_parse(rule: Rule, tokens: Seq<TokenView>, lo: int, hi: int, tree: Tree)
    requires
        all_lexical(tokens),
        derives(rule, tokens, lo, hi, tree),
        ends_at(rule, tokens, hi),
    ensures
        parse_rule(rule, tokens, lo) == done(tree, hi),
    decreases hi - lo, rule.rank(), 1nat,
{
    match rule {
        Rule::Statement | Rule::Expression | Rule::Term | Rule::Factor | Rule::Piece => {
            lemma_derives_chain(rule, tokens, lo, hi, tree);
        },
        Rule::BaseStatement => {
            lemma_derives_base(tokens, lo, hi, tree);
        },
        Rule::While => {
            lemma_derives_while(tokens, lo, hi, tree);
        },
        Rule::If => {
            lemma_derives_if(tokens, lo, hi, tree);
        },
        Rule::Assignment => {
            lemma_derives_assignment(tokens, lo, hi, tree);
        },
        Rule::Element => {
            lemma_derives_element(tokens, lo, hi, tree);
        },
    }
}

/// A base statement of the grammar is parsed as one.
pub proof fn lemma_derives_base(tokens: Seq<TokenView>, lo: int, hi: int, tree: Tree)
    requires
        all_lexical(tokens),
        derives(Rule::BaseStatement, tokens, lo, hi, tree),
        ends_at(Rule::BaseStatement, tokens, hi),
    ensures
        parse_rule(Rule::BaseStatement, tokens, lo) == done(tree, hi),
    decreases hi - lo, Rule::BaseStatement.rank(), 0nat,
{
    lemma_reserved_words();
    if derives(Rule::While, tokens, lo, hi, tree) {
        lemma_derives_parse(Rule::While, tokens, lo, hi, tree);
    } else if derives(Rule::If, tokens, lo, hi, tree) {
        lemma_derives_parse(Rule::If, tokens, lo, hi, tree);
    } else if hi == lo + 1 && tokens[lo].value == "skip"@ && tree == Tree::leaf(tokens[lo]) {
    } else {
        lemma_assignment_start(tokens, lo, hi, tree);
        lemma_derives_parse(Rule::Assignment, tokens, lo, hi, tree);
    }
}

/// An assignment starts as an element does.
pub proof fn lemma_assignment_start(tokens: Seq<TokenView>, lo: int, hi: int, tree: Tree)
    requires
        all_lexical(tokens),
        derives(Rule::Assignment, tokens, lo, hi, tree),
    ensures
        tokens[lo].value != "while"@,
        tokens[lo].value != "if"@,
        tokens[lo].value != "skip"@,
{
    let mid = choose|mid: int|
        lo < mid < hi && #[trigger] joined(tokens, mid, ":="@, tree) && derives(
            Rule::Element,
            tokens,
            lo,
            mid,
            *tree.left->0,
        ) && derives(Rule::Expression, tokens, mid + 1, hi, *tree.right->0);
    lemma_element_start(tokens, lo, mid, *tree.left->0);
}

/// A `while` of the grammar is parsed as one.
pub proof fn lemma_derives_while(tokens: Seq<TokenView>, lo: int, hi: int, tree: Tree)
    requires
        all_lexical(tokens),
        derives(Rule::While, tokens, lo, hi, tree),
    ensures
        parse_rule(Rule::While, tokens, lo) == done(tree, hi),
    decreases hi - lo, Rule::While.rank(), 0nat,
{
    let mid = choose|mid: int|
        lo < mid < hi - 1 && #[trigger] word_at(tokens, mid, "do"@) && derives(
            Rule::Expression,
            tokens,
            lo + 1,
            mid,
            *tree.left->0,
        ) && derives(Rule::Statement, tokens, mid + 1, hi - 1, *tree.right->0);
    let left = *tree.left->0;
    let right = *tree.right->0;
    assert(ends_at(Rule::Expression, tokens, mid) && ends_at(Rule::Statement, tokens, hi - 1)) by {
        lemma_reserved_words();
    }
    lemma_derives_parse(Rule::Expression, tokens, lo + 1, mid, left);
    lemma_derives_parse(Rule::Statement, tokens, mid + 1, hi - 1, right);
    assert(parse_body(tokens, lo, mid, "do"@, "endwhile"@, tokens[lo], left, None) == done(
        tree,
        hi,
    ));
}

/// An `if` of the grammar is parsed as one.
pub proof fn lemma_derives_if(tokens: Seq<TokenView>, lo: int, hi: int, tree: Tree)
    requires
        all_lexical(tokens),
        derives(Rule::If, tokens, lo, hi, tree),
    ensures
        parse_rule(Rule::If, tokens, lo) == done(tree, hi),
    decreases hi - lo, Rule::If.rank(), 0nat,
{
    let (first, second) = choose|first: int, second: int|
        lo < first < second < hi - 1 && #[trigger] word_at(tokens, first, "then"@)
            && #[trigger] word_at(tokens, second, "else"@) && derives(
            Rule::Expression,
            tokens,
            lo + 1,
            first,
            *tree.left->0,
        ) && derives(Rule::Statement, tokens, first + 1, second, *tree.middle->0) && derives(
            Rule::Statement,
            tokens,
            second + 1,
            hi - 1,
            *tree.right->0,
        );
    let left = *tree.left->0;
    let middle = *tree.middle->0;
    let right = *tree.right->0;
    assert(ends_at(Rule::Expression, tokens, first) && ends_at(Rule::Statement, tokens, second)
        && ends_at(Rule::Statement, tokens, hi - 1)) by {
        lemma_reserved_words();
    }
    lemma_derives_parse(Rule::Expression, tokens, lo + 1, first, left);
    lemma_derives_parse(Rule::Statement, tokens, first + 1, second, middle);
    lemma_derives_parse(Rule::Statement, tokens, second + 1, hi - 1, right);
    assert(parse_body(
        tokens,
        lo,
        second,
        "else"@,
        "endif"@,
        tokens[lo],
        left,
        Some(Box::new(middle)),
    ) == done(tree, hi));
}

/// An assignment of the grammar is parsed as one.
pub proof fn lemma_derives_assignment(tokens: Seq<TokenView>, lo: int, hi: int, tree: Tree)
    requires
        all_lexical(tokens),
        derives(Rule::Assignment, tokens, lo, hi, tree),
        ends_at(Rule::Assignment, tokens, hi),
    ensures
        parse_rule(Rule::Assignment, tokens, lo) == done(tree, hi),
    decreases hi - lo, Rule::Assignment.rank(), 0nat,
{
    let mid = choose|mid: int|
        lo < mid < hi && #[trigger] joined(tokens, mid, ":="@, tree) && derives(
            Rule::Element,
            tokens,
            lo,
            mid,
            *tree.left->0,
        ) && derives(Rule::Expression, tokens, mid + 1, hi, *tree.right->0);
    lemma_derives_parse(Rule::Element, tokens, lo, mid, *tree.left->0);
    lemma_derives_parse(Rule::Expression, tokens, mid + 1, hi, *tree.right->0);
}

/// An element of the grammar is parsed as one.
pub proof fn lemma_derives_element(tokens: Seq<TokenView>, lo: int, hi: int, tree: Tree)
    requires
        all_lexical(tokens),
        derives(Rule::Element, tokens, lo, hi, tree),
    ensures
        parse_rule(Rule::Element, tokens, lo) == done(tree, hi),
    decreases hi - lo, Rule::Element.rank(), 0nat,
{
    if !(hi == lo + 1 && is_operand(tokens[lo]) && tree == Tree::leaf(tokens[lo])) {
        assert(ends_at(Rule::Expression, tokens, hi - 1)) by {
            lemma_reserved_words();
        }
        lemma_derives_parse(Rule::Expression, tokens, lo + 1, hi - 1, tree);
    }
}

/// A phrase of a chain is read operand by operand: its first operand is
/// read, and the rest of the chain from there comes to the same as from
/// the end of the phrase with its whole tree.
pub proof fn lemma_derives_chain(rule: Rule, tokens: Seq<TokenView>, lo: int, hi: int, tree: Tree)
    requires
        rule.is_chain(),
        all_lexical(tokens),
        derives(rule, tokens, lo, hi, tree),
        ends_at(rule.operand(), tokens, hi),
    ensures
        ({
            let first = parse_rule(rule.operand(), tokens, lo);
            &&& first.result is Ok
            &&& advanced(tokens, lo, first.pos)
            &&& parse_chain(rule, tokens, first.pos, first.result->Ok_0) == parse_chain(
                rule,
                tokens,
                hi,
                tree,
            )
            &&& parse_rule(rule, tokens, lo) == parse_chain(rule, tokens, hi, tree)
        }),
    decreases hi - lo, rule.rank(), 0nat,
{
    if derives(rule.operand(), tokens, lo, hi, tree) {
        lemma_derives_parse(rule.operand(), tokens, lo, hi, tree);
    } else {
        let mid = choose|mid: int|
            lo < mid < hi && #[trigger] joined(tokens, mid, rule.operator(), tree) && derives(
                rule,
                tokens,
                lo,
                mid,
                *tree.left->0,
            ) && derives(rule.operand(), tokens, mid + 1, hi, *tree.right->0);
        assert(ends_at(rule.operand(), tokens, mid)) by {
            lemma_reserved_words();
        }
        lemma_derives_chain(rule, tokens, lo, mid, *tree.left->0);
        lemma_derives_parse(rule.operand(), tokens, mid + 1, hi, *tree.right->0);
    }
}

/// Whether the tokens, all of them, are a program with syntax tree `tree`.
pub open spec fn is_program(tokens: Seq<TokenView>, tree: Tree) -> bool {
    derives(Rule::Statement, tokens, 0, tokens.len() as int, tree)
}

/// What is parsed as a program is a program of the grammar.
pub proof fn lemma_parsed_is_program(tokens: Seq<TokenView>, tree: Tree)
    requires
        parse_program(tokens, 0).result == Ok::<Tree, ParseErrorView>(tree),
    ensures
        is_program(tokens, tree),
{
    lemma_parse_derives(Rule::Statement, tokens, 0);
    lemma_parse_advances(Rule::Statement, tokens, 0);
}

/// Every program of the grammar, made of lexical tokens, is parsed, and with
/// the tree that it derives.
pub proof fn lemma_program_is_parsed(tokens: Seq<TokenView>, tree: Tree)
    requires
        all_lexical(tokens),
        is_program(tokens, tree),
    ensures
        parse_program(tokens, 0) == done(tree, tokens.len() as int),
{
    lemma_derives_parse(Rule::Statement, tokens, 0, tokens.len() as int, tree);
}

/// Lexical tokens are a program in one way at most.
pub proof fn lemma_program_is_unambiguous(tokens: Seq<TokenView>, one: Tree, other: Tree)
    requires
        all_lexical(tokens),
        is_program(tokens, one),
        is_program(tokens, other),
    ensures
        one == other,
{
    lemma_program_is_parsed(tokens, one);
    lemma_program_is_parsed(tokens, other);
}

} // verus!
