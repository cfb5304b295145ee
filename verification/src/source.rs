//! The way back from a syntax tree to tokens, and the law that parsing the
//! tokens of a tree gives the tree again.

use vstd::prelude::*;
use crate::derivation::{
    all_lexical, derives, is_lexical, is_operand, joined, lemma_parse_derives,
    lemma_parsed_is_program, lemma_program_is_parsed, lemma_reserved_words, word_at,
};
use crate::grammar::{done, parse_program, parse_rule, ParseErrorView, Rule, Tree};
use crate::scanner::{TokenType, TokenView};

verus! {

impl Tree {
    /// A node without subtrees.
    pub open spec fn is_leaf(self) -> bool {
        self.left is None && self.middle is None && self.right is None
    }

    /// A node with a left and a right subtree only.
    pub open spec fn is_binary(self) -> bool {
        self.left is Some && self.middle is None && self.right is Some
    }

    /// A node with all three subtrees.
    pub open spec fn is_ternary(self) -> bool {
        self.left is Some && self.middle is Some && self.right is Some
    }
}

/// The four operators of arithmetic.
pub open spec fn is_arithmetic(text: Seq<char>) -> bool {
    text == "+"@ || text == "-"@ || text == "/"@ || text == "*"@
}

/// The chain that an operator joins; `Element` for any other text.
pub open spec fn rule_of(text: Seq<char>) -> Rule {
    if text == ";"@ {
        Rule::Statement
    } else if text == "+"@ {
        Rule::Expression
    } else if text == "-"@ {
        Rule::Term
    } else if text == "/"@ {
        Rule::Factor
    } else if text == "*"@ {
        Rule::Piece
    } else {
        Rule::Element
    }
}

/// The rules of expressions.
pub open spec fn is_expression_rule(rule: Rule) -> bool {
    rule is Expression || rule is Term || rule is Factor || rule is Piece || rule is Element
}

/// The trees of expressions: an operand, or an operator of arithmetic over
/// two expressions.
pub open spec fn is_expression(tree: Tree) -> bool
    decreases tree,
{
    &&& is_lexical(tree.value)
    &&& if tree.is_leaf() {
        is_operand(tree.value)
    } else {
        &&& tree.is_binary()
        &&& is_arithmetic(tree.value.value)
        &&& is_expression(*tree.left->0)
        &&& is_expression(*tree.right->0)
    }
}

/// The trees of statements: a base statement, or a semicolon over a
/// statement and a base statement.
pub open spec fn is_statement(tree: Tree) -> bool
    decreases tree, 1nat,
{
    ||| is_base_statement(tree)
    ||| {
        &&& is_lexical(tree.value)
        &&& tree.is_binary()
        &&& tree.value.value == ";"@
        &&& is_statement(*tree.left->0)
        &&& is_base_statement(*tree.right->0)
    }
}

/// The trees of base statements: `skip`, a `while` over its condition and
/// body, an `if` over its condition and branches, an assignment over its
/// two sides.
pub open spec fn is_base_statement(tree: Tree) -> bool
    decreases tree, 0nat,
{
    &&& is_lexical(tree.value)
    &&& {
        ||| tree.is_leaf() && tree.value.value == "skip"@
        ||| tree.is_binary() && tree.value.value == "while"@ && is_expression(*tree.left->0)
            && is_statement(*tree.right->0)
        ||| tree.is_ternary() && tree.value.value == "if"@ && is_expression(*tree.left->0)
            && is_statement(*tree.middle->0) && is_statement(*tree.right->0)
        ||| tree.is_binary() && tree.value.value == ":="@ && is_expression(*tree.left->0)
            && is_expression(*tree.right->0)
    }
}

/// A token that the tree does not hold, written beside the token `near`.
pub open spec fn mark(kind: TokenType, text: Seq<char>, near: TokenView) -> TokenView {
    TokenView { kind, value: text, line: near.line }
}

/// Whether an expression can stand as a phrase of `rule` without brackets:
/// an operand can, and an operator that binds at least as tightly.
pub open spec fn fits(tree: Tree, rule: Rule) -> bool {
    tree.is_leaf() || rule_of(tree.value.value).rank() <= rule.rank()
}

/// The tokens of an expression where a phrase of `rule` is wanted, in
/// brackets where it would not be one without.
pub open spec fn expression_source(tree: Tree, rule: Rule) -> Seq<TokenView>
    decreases tree, 1nat,
{
    if fits(tree, rule) {
        plain_source(tree)
    } else {
        seq![mark(TokenType::Symbol, "("@, tree.value)] + plain_source(tree) + seq![
            mark(TokenType::Symbol, ")"@, tree.value),
        ]
    }
}

/// The tokens of an expression: an operand, or the operator between its
/// operands.
pub open spec fn plain_source(tree: Tree) -> Seq<TokenView>
    decreases tree, 0nat,
{
    if tree.left is Some && tree.right is Some {
        let rule = rule_of(tree.value.value);
        expression_source(*tree.left->0, rule) + seq![tree.value] + expression_source(
            *tree.right->0,
            rule.operand(),
        )
    } else {
        seq![tree.value]
    }
}

/// The tokens of a statement, with the words that the tree leaves out.
pub open spec fn statement_source(tree: Tree) -> Seq<TokenView>
    decreases tree,
{
    if tree.is_binary() && tree.value.value == ";"@ {
        statement_source(*tree.left->0) + seq![tree.value] + statement_source(*tree.right->0)
    } else if tree.is_binary() && tree.value.value == "while"@ {
        seq![tree.value] + expression_source(*tree.left->0, Rule::Expression) + seq![
            mark(TokenType::Keyword, "do"@, tree.value),
        ] + statement_source(*tree.right->0) + seq![
            mark(TokenType::Keyword, "endwhile"@, tree.value),
        ]
    } else if tree.is_ternary() && tree.value.value == "if"@ {
        seq![tree.value] + expression_source(*tree.left->0, Rule::Expression) + seq![
            mark(TokenType::Keyword, "then"@, tree.value),
        ] + statement_source(*tree.middle->0) + seq![mark(TokenType::Keyword, "else"@, tree.value)]
            + statement_source(*tree.right->0) + seq![
            mark(TokenType::Keyword, "endif"@, tree.value),
        ]
    } else if tree.is_binary() {
        expression_source(*tree.left->0, Rule::Element) + seq![tree.value] + expression_source(
            *tree.right->0,
            Rule::Expression,
        )
    } else {
        seq![tree.value]
    }
}

/// A derivation looks at the tokens of its phrase only: the same tokens at
/// another place, or among others, derive the same tree.
pub proof fn lemma_derives_moved(
    rule: Rule,
    tokens: Seq<TokenView>,
    lo: int,
    hi: int,
    tree: Tree,
    other: Seq<TokenView>,
    shift: int,
)
    requires
        derives(rule, tokens, lo, hi, tree),
        0 <= lo + shift,
        hi + shift <= other.len(),
        forall|i: int| lo <= i < hi ==> other[i + shift] == tokens[i],
    ensures
        derives(rule, other, lo + shift, hi + shift, tree),
    decreases hi - lo, rule.rank(),
{
    match rule {
        Rule::Statement | Rule::Expression | Rule::Term | Rule::Factor | Rule::Piece => {
            if derives(rule.operand(), tokens, lo, hi, tree) {
                lemma_derives_moved(rule.operand(), tokens, lo, hi, tree, other, shift);
            } else {
                let mid = choose|mid: int|
                    lo < mid < hi && #[trigger] joined(tokens, mid, rule.operator(), tree)
                        && derives(rule, tokens, lo, mid, *tree.left->0) && derives(
                        rule.operand(),
                        tokens,
                        mid + 1,
                        hi,
                        *tree.right->0,
                    );
                lemma_derives_moved(rule, tokens, lo, mid, *tree.left->0, other, shift);
                lemma_derives_moved(
                    rule.operand(),
                    tokens,
                    mid + 1,
                    hi,
                    *tree.right->0,
                    other,
                    shift,
                );
                assert(joined(other, mid + shift, rule.operator(), tree));
            }
        },
        Rule::BaseStatement => {
            if derives(Rule::While, tokens, lo, hi, tree) {
                lemma_derives_moved(Rule::While, tokens, lo, hi, tree, other, shift);
            } else if derives(Rule::If, tokens, lo, hi, tree) {
                lemma_derives_moved(Rule::If, tokens, lo, hi, tree, other, shift);
            } else if hi == lo + 1 && tokens[lo].value == "skip"@ && tree == Tree::leaf(
                tokens[lo],
            ) {
            } else {
                lemma_derives_moved(Rule::Assignment, tokens, lo, hi, tree, other, shift);
            }
        },
        Rule::While => {
            let mid = choose|mid: int|
                lo < mid < hi - 1 && #[trigger] word_at(tokens, mid, "do"@) && derives(
                    Rule::Expression,
                    tokens,
                    lo + 1,
                    mid,
                    *tree.left->0,
                ) && derives(Rule::Statement, tokens, mid + 1, hi - 1, *tree.right->0);
            lemma_derives_moved(Rule::Expression, tokens, lo + 1, mid, *tree.left->0, other, shift);
            lemma_derives_moved(
                Rule::Statement,
                tokens,
                mid + 1,
                hi - 1,
                *tree.right->0,
                other,
                shift,
            );
            assert(word_at(other, mid + shift, "do"@));
        },
        Rule::If => {
            let (first, second) = choose|first: int, second: int|
                lo < first < second < hi - 1 && #[trigger] word_at(tokens, first, "then"@)
                    && #[trigger] word_at(tokens, second, "else"@) && derives(
                    Rule::Expression,
                    tokens,
                    lo + 1,
                    first,
                    *tree.left->0,
                ) && derives(Rule::Statement, tokens, first + 1, second, *tree.middle->0)
                    && derives(Rule::Statement, tokens, second + 1, hi - 1, *tree.right->0);
            lemma_derives_moved(
                Rule::Expression,
                tokens,
                lo + 1,
                first,
                *tree.left->0,
                other,
                shift,
            );
            lemma_derives_moved(
                Rule::Statement,
                tokens,
                first + 1,
                second,
                *tree.middle->0,
                other,
                shift,
            );
            lemma_derives_moved(
                Rule::Statement,
                tokens,
                second + 1,
                hi - 1,
                *tree.right->0,
                other,
                shift,
            );
            assert(word_at(other, first + shift, "then"@));
            assert(word_at(other, second + shift, "else"@));
        },
        Rule::Assignment => {
            let mid = choose|mid: int|
                lo < mid < hi && #[trigger] joined(tokens, mid, ":="@, tree) && derives(
                    Rule::Element,
                    tokens,
                    lo,
                    mid,
                    *tree.left->0,
                ) && derives(Rule::Expression, tokens, mid + 1, hi, *tree.right->0);
            lemma_derives_moved(Rule::Element, tokens, lo, mid, *tree.left->0, other, shift);
            lemma_derives_moved(
                Rule::Expression,
                tokens,
                mid + 1,
                hi,
                *tree.right->0,
                other,
                shift,
            );
            assert(joined(other, mid + shift, ":="@, tree));
        },
        Rule::Element => {
            if !(hi == lo + 1 && is_operand(tokens[lo]) && tree == Tree::leaf(tokens[lo])) {
                lemma_derives_moved(Rule::Expression, tokens, lo + 1, hi - 1, tree, other, shift);
            }
        },
    }
}

/// A phrase of a rule of expressions is a phrase of every rule of
/// expressions that binds no tighter.
pub proof fn lemma_derives_lifted(
    from: Rule,
    to: Rule,
    tokens: Seq<TokenView>,
    lo: int,
    hi: int,
    tree: Tree,
)
    requires
        is_expression_rule(from),
        is_expression_rule(to),
        from.rank() <= to.rank(),
        derives(from, tokens, lo, hi, tree),
    ensures
        derives(to, tokens, lo, hi, tree),
    decreases to.rank(),
{
    if from.rank() < to.rank() {
        lemma_derives_lifted(from, to.operand(), tokens, lo, hi, tree);
    }
}

/// The rule that a bare expression is a phrase of: the chain of its
/// operator, or `Element` for an operand.
pub open spec fn own_rule(tree: Tree) -> Rule {
    if tree.is_leaf() {
        Rule::Element
    } else {
        rule_of(tree.value.value)
    }
}

/// The tokens of an expression are lexical and derive it by the rule of
/// its operator.
pub proof fn lemma_plain_source(tree: Tree)
    requires
        is_expression(tree),
    ensures
        all_lexical(plain_source(tree)),
        is_expression_rule(own_rule(tree)),
        derives(own_rule(tree), plain_source(tree), 0, plain_source(tree).len() as int, tree),
    decreases tree, 0nat,
{
    lemma_reserved_words();
    if !tree.is_leaf() {
        let rule = rule_of(tree.value.value);
        let left = expression_source(*tree.left->0, rule);
        let right = expression_source(*tree.right->0, rule.operand());
        let all = plain_source(tree);
        lemma_expression_source(*tree.left->0, rule);
        lemma_expression_source(*tree.right->0, rule.operand());
        lemma_derives_moved(rule, left, 0, left.len() as int, *tree.left->0, all, 0);
        lemma_derives_moved(
            rule.operand(),
            right,
            0,
            right.len() as int,
            *tree.right->0,
            all,
            (left.len() + 1) as int,
        );
        assert(joined(all, left.len() as int, rule.operator(), tree));
    }
}

/// The tokens of an expression, in brackets where `rule` needs them, are
/// lexical and derive it by `rule`.
pub proof fn lemma_expression_source(tree: Tree, rule: Rule)
    requires
        is_expression(tree),
        is_expression_rule(rule),
    ensures
        all_lexical(expression_source(tree, rule)),
        derives(
            rule,
            expression_source(tree, rule),
            0,
            expression_source(tree, rule).len() as int,
            tree,
        ),
    decreases tree, 1nat,
{
    lemma_reserved_words();
    lemma_plain_source(tree);
    let plain = plain_source(tree);
    if fits(tree, rule) {
        lemma_derives_lifted(own_rule(tree), rule, plain, 0, plain.len() as int, tree);
    } else {
        let all = expression_source(tree, rule);
        lemma_derives_lifted(own_rule(tree), Rule::Expression, plain, 0, plain.len() as int, tree);
        lemma_derives_moved(Rule::Expression, plain, 0, plain.len() as int, tree, all, 1);
        lemma_derives_lifted(Rule::Element, rule, all, 0, all.len() as int, tree);
    }
}

/// A phrase stays a phrase with other tokens before it.
pub proof fn lemma_derives_after(
    rule: Rule,
    part: Seq<TokenView>,
    tree: Tree,
    before: Seq<TokenView>,
)
    requires
        derives(rule, part, 0, part.len() as int, tree),
    ensures
        derives(rule, before + part, before.len() as int, (before + part).len() as int, tree),
{
    lemma_derives_moved(
        rule,
        part,
        0,
        part.len() as int,
        tree,
        before + part,
        before.len() as int,
    );
}

/// A phrase stays a phrase with other tokens after it.
pub proof fn lemma_derives_before(
    rule: Rule,
    tokens: Seq<TokenView>,
    lo: int,
    hi: int,
    tree: Tree,
    after: Seq<TokenView>,
)
    requires
        derives(rule, tokens, lo, hi, tree),
    ensures
        derives(rule, tokens + after, lo, hi, tree),
{
    lemma_derives_moved(rule, tokens, lo, hi, tree, tokens + after, 0);
}

/// Lexical tokens put together are lexical.
pub proof fn lemma_lexical_joined(one: Seq<TokenView>, other: Seq<TokenView>)
    requires
        all_lexical(one),
        all_lexical(other),
    ensures
        all_lexical(one + other),
{
    assert forall|i: int| 0 <= i < (one + other).len() implies is_lexical(
        #[trigger] (one + other)[i],
    ) by {
        if i < one.len() {
            assert(is_lexical(one[i]));
        } else {
            assert(is_lexical(other[i - one.len()]));
        }
    }
}

/// The tokens of a statement are lexical and derive it; those of a base
/// statement derive it as one.
pub proof fn lemma_statement_source(tree: Tree)
    requires
        is_statement(tree),
    ensures
        all_lexical(statement_source(tree)),
        derives(
            Rule::Statement,
            statement_source(tree),
            0,
            statement_source(tree).len() as int,
            tree,
        ),
        is_base_statement(tree) ==> derives(
            Rule::BaseStatement,
            statement_source(tree),
            0,
            statement_source(tree).len() as int,
            tree,
        ),
    decreases tree, 1nat,
{
    lemma_reserved_words();
    let all = statement_source(tree);
    let end = all.len() as int;
    if !is_base_statement(tree) {
        lemma_sequence_source(tree);
    } else {
        if tree.is_leaf() {
        } else if tree.value.value == "while"@ {
            lemma_while_source(tree);
        } else if tree.value.value == "if"@ {
            lemma_if_source(tree);
        } else {
            lemma_assignment_source(tree);
        }
        assert(derives(Rule::BaseStatement, all, 0, end, tree));
    }
}

/// The tokens of a sequence of statements derive it.
pub proof fn lemma_sequence_source(tree: Tree)
    requires
        is_lexical(tree.value),
        tree.is_binary(),
        tree.value.value == ";"@,
        is_statement(*tree.left->0),
        is_base_statement(*tree.right->0),
    ensures
        all_lexical(statement_source(tree)),
        derives(
            Rule::Statement,
            statement_source(tree),
            0,
            statement_source(tree).len() as int,
            tree,
        ),
    decreases tree, 0nat,
{
    let left = statement_source(*tree.left->0);
    let right = statement_source(*tree.right->0);
    let sign = seq![tree.value];
    let all = left + sign + right;
    lemma_statement_source(*tree.left->0);
    lemma_statement_source(*tree.right->0);
    lemma_derives_before(Rule::Statement, left, 0, left.len() as int, *tree.left->0, sign);
    lemma_derives_before(
        Rule::Statement,
        left + sign,
        0,
        left.len() as int,
        *tree.left->0,
        right,
    );
    lemma_derives_after(Rule::BaseStatement, right, *tree.right->0, left + sign);
    assert(joined(all, left.len() as int, Rule::Statement.operator(), tree));
    lemma_lexical_joined(left, sign);
    lemma_lexical_joined(left + sign, right);
}

/// The tokens of a `while` derive it.
pub proof fn lemma_while_source(tree: Tree)
    requires
        is_lexical(tree.value),
        tree.is_binary(),
        tree.value.value == "while"@,
        is_expression(*tree.left->0),
        is_statement(*tree.right->0),
    ensures
        all_lexical(statement_source(tree)),
        derives(Rule::While, statement_source(tree), 0, statement_source(tree).len() as int, tree),
    decreases tree, 0nat,
{
    let head = seq![tree.value];
    let left = expression_source(*tree.left->0, Rule::Expression);
    let open = seq![mark(TokenType::Keyword, "do"@, tree.value)];
    let right = statement_source(*tree.right->0);
    let close = seq![mark(TokenType::Keyword, "endwhile"@, tree.value)];
    let all = head + left + open + right + close;
    assert(all == statement_source(tree)) by {
        lemma_reserved_words();
    }
    lemma_expression_source(*tree.left->0, Rule::Expression);
    lemma_statement_source(*tree.right->0);
    let one = 1 + left.len() as int;
    lemma_derives_after(Rule::Expression, left, *tree.left->0, head);
    lemma_derives_before(Rule::Expression, head + left, 1, one, *tree.left->0, open);
    lemma_derives_before(Rule::Expression, head + left + open, 1, one, *tree.left->0, right);
    lemma_derives_before(
        Rule::Expression,
        head + left + open + right,
        1,
        one,
        *tree.left->0,
        close,
    );
    lemma_derives_after(Rule::Statement, right, *tree.right->0, head + left + open);
    lemma_derives_before(
        Rule::Statement,
        head + left + open + right,
        one + 1,
        one + 1 + right.len(),
        *tree.right->0,
        close,
    );
    assert(word_at(all, one, "do"@));
    assert(all_lexical(head) && all_lexical(open) && all_lexical(close)) by {
        lemma_reserved_words();
    }
    lemma_lexical_joined(head, left);
    lemma_lexical_joined(head + left, open);
    lemma_lexical_joined(head + left + open, right);
    lemma_lexical_joined(head + left + open + right, close);
}

/// The tokens of an `if` derive it.
pub proof fn lemma_if_source(tree: Tree)
    requires
        is_lexical(tree.value),
        tree.is_ternary(),
        tree.value.value == "if"@,
        is_expression(*tree.left->0),
        is_statement(*tree.middle->0),
        is_statement(*tree.right->0),
    ensures
        all_lexical(statement_source(tree)),
        derives(Rule::If, statement_source(tree), 0, statement_source(tree).len() as int, tree),
    decreases tree, 0nat,
{
    let head = seq![tree.value];
    let left = expression_source(*tree.left->0, Rule::Expression);
    let first = seq![mark(TokenType::Keyword, "then"@, tree.value)];
    let middle = statement_source(*tree.middle->0);
    let second = seq![mark(TokenType::Keyword, "else"@, tree.value)];
    let right = statement_source(*tree.right->0);
    let close = seq![mark(TokenType::Keyword, "endif"@, tree.value)];
    let upto_left = head + left;
    let upto_first = upto_left + first;
    let upto_middle = upto_first + middle;
    let upto_second = upto_middle + second;
    let upto_right = upto_second + right;
    let all = upto_right + close;
    lemma_expression_source(*tree.left->0, Rule::Expression);
    lemma_statement_source(*tree.middle->0);
    lemma_statement_source(*tree.right->0);
    let one = upto_left.len() as int;
    let two = upto_middle.len() as int;
    let three = upto_right.len() as int;
    let l = *tree.left->0;
    let m = *tree.middle->0;
    let r = *tree.right->0;
    lemma_derives_after(Rule::Expression, left, l, head);
    lemma_derives_before(Rule::Expression, upto_left, 1, one, l, first);
    lemma_derives_before(Rule::Expression, upto_first, 1, one, l, middle);
    lemma_derives_before(Rule::Expression, upto_middle, 1, one, l, second);
    lemma_derives_before(Rule::Expression, upto_second, 1, one, l, right);
    lemma_derives_before(Rule::Expression, upto_right, 1, one, l, close);
    lemma_derives_after(Rule::Statement, middle, m, upto_first);
    lemma_derives_before(Rule::Statement, upto_middle, one + 1, two, m, second);
    lemma_derives_before(Rule::Statement, upto_second, one + 1, two, m, right);
    lemma_derives_before(Rule::Statement, upto_right, one + 1, two, m, close);
    lemma_derives_after(Rule::Statement, right, r, upto_second);
    lemma_derives_before(Rule::Statement, upto_right, two + 1, three, r, close);
    assert(word_at(all, one, "then"@));
    assert(word_at(all, two, "else"@));
    assert(all_lexical(head) && all_lexical(first) && all_lexical(second) && all_lexical(close))
        by {
        lemma_reserved_words();
    }
    lemma_lexical_joined(head, left);
    lemma_lexical_joined(upto_left, first);
    lemma_lexical_joined(upto_first, middle);
    lemma_lexical_joined(upto_middle, second);
    lemma_lexical_joined(upto_second, right);
    lemma_lexical_joined(upto_right, close);
}

/// The tokens of an assignment derive it.
pub proof fn lemma_assignment_source(tree: Tree)
    requires
        is_lexical(tree.value),
        tree.is_binary(),
        tree.value.value == ":="@,
        is_expression(*tree.left->0),
        is_expression(*tree.right->0),
    ensures
        all_lexical(statement_source(tree)),
        derives(
            Rule::Assignment,
            statement_source(tree),
            0,
            statement_source(tree).len() as int,
            tree,
        ),
    decreases tree, 0nat,
{
    let left = expression_source(*tree.left->0, Rule::Element);
    let sign = seq![tree.value];
    let right = expression_source(*tree.right->0, Rule::Expression);
    let all = left + sign + right;
    assert(all == statement_source(tree)) by {
        lemma_reserved_words();
    }
    lemma_expression_source(*tree.left->0, Rule::Element);
    lemma_expression_source(*tree.right->0, Rule::Expression);
    lemma_derives_before(Rule::Element, left, 0, left.len() as int, *tree.left->0, sign);
    lemma_derives_before(Rule::Element, left + sign, 0, left.len() as int, *tree.left->0, right);
    lemma_derives_after(Rule::Expression, right, *tree.right->0, left + sign);
    assert(joined(all, left.len() as int, ":="@, tree));
    assert(all_lexical(sign));
    lemma_lexical_joined(left, sign);
    lemma_lexical_joined(left + sign, right);
}

/// The shape that the trees of a rule have.
pub open spec fn has_shape(rule: Rule, tree: Tree) -> bool {
    match rule {
        Rule::Statement => is_statement(tree),
        Rule::BaseStatement | Rule::While | Rule::If | Rule::Assignment => is_base_statement(tree),
        _ => is_expression(tree),
    }
}

/// The tree that lexical tokens derive by a rule has the shape of the rule,
/// and its tokens are lexical.
pub proof fn lemma_derived_shape(rule: Rule, tokens: Seq<TokenView>, lo: int, hi: int, tree: Tree)
    requires
        all_lexical(tokens),
        derives(rule, tokens, lo, hi, tree),
    ensures
        has_shape(rule, tree),
    decreases hi - lo, rule.rank(),
{
    lemma_reserved_words();
    match rule {
        Rule::Statement | Rule::Expression | Rule::Term | Rule::Factor | Rule::Piece => {
            if derives(rule.operand(), tokens, lo, hi, tree) {
                lemma_derived_shape(rule.operand(), tokens, lo, hi, tree);
            } else {
                let mid = choose|mid: int|
                    lo < mid < hi && #[trigger] joined(tokens, mid, rule.operator(), tree)
                        && derives(rule, tokens, lo, mid, *tree.left->0) && derives(
                        rule.operand(),
                        tokens,
                        mid + 1,
                        hi,
                        *tree.right->0,
                    );
                lemma_derived_shape(rule, tokens, lo, mid, *tree.left->0);
                lemma_derived_shape(rule.operand(), tokens, mid + 1, hi, *tree.right->0);
            }
        },
        Rule::BaseStatement => {
            if derives(Rule::While, tokens, lo, hi, tree) {
                lemma_derived_shape(Rule::While, tokens, lo, hi, tree);
            } else if derives(Rule::If, tokens, lo, hi, tree) {
                lemma_derived_shape(Rule::If, tokens, lo, hi, tree);
            } else if hi == lo + 1 && tokens[lo].value == "skip"@ && tree == Tree::leaf(
                tokens[lo],
            ) {
            } else {
                lemma_derived_shape(Rule::Assignment, tokens, lo, hi, tree);
            }
        },
        Rule::While => {
            let mid = choose|mid: int|
                lo < mid < hi - 1 && #[trigger] word_at(tokens, mid, "do"@) && derives(
                    Rule::Expression,
                    tokens,
                    lo + 1,
                    mid,
                    *tree.left->0,
                ) && derives(Rule::Statement, tokens, mid + 1, hi - 1, *tree.right->0);
            lemma_derived_shape(Rule::Expression, tokens, lo + 1, mid, *tree.left->0);
            lemma_derived_shape(Rule::Statement, tokens, mid + 1, hi - 1, *tree.right->0);
        },
        Rule::If => {
            let (first, second) = choose|first: int, second: int|
                lo < first < second < hi - 1 && #[trigger] word_at(tokens, first, "then"@)
                    && #[trigger] word_at(tokens, second, "else"@) && derives(
                    Rule::Expression,
                    tokens,
                    lo + 1,
                    first,
                    *tree.left->0,
                ) && derives(Rule::Statement, tokens, first + 1, second, *tree.middle->0)
                    && derives(Rule::Statement, tokens, second + 1, hi - 1, *tree.right->0);
            lemma_derived_shape(Rule::Expression, tokens, lo + 1, first, *tree.left->0);
            lemma_derived_shape(Rule::Statement, tokens, first + 1, second, *tree.middle->0);
            lemma_derived_shape(Rule::Statement, tokens, second + 1, hi - 1, *tree.right->0);
        },
        Rule::Assignment => {
            let mid = choose|mid: int|
                lo < mid < hi && #[trigger] joined(tokens, mid, ":="@, tree) && derives(
                    Rule::Element,
                    tokens,
                    lo,
                    mid,
                    *tree.left->0,
                ) && derives(Rule::Expression, tokens, mid + 1, hi, *tree.right->0);
            lemma_derived_shape(Rule::Element, tokens, lo, mid, *tree.left->0);
            lemma_derived_shape(Rule::Expression, tokens, mid + 1, hi, *tree.right->0);
        },
        Rule::Element => {
            if !(hi == lo + 1 && is_operand(tokens[lo]) && tree == Tree::leaf(tokens[lo])) {
                lemma_derived_shape(Rule::Expression, tokens, lo + 1, hi - 1, tree);
            }
        },
    }
}

/// The tokens of a statement's tree are parsed to that tree.
pub proof fn lemma_source_is_parsed(tree: Tree)
    requires
        is_statement(tree),
    ensures
        parse_program(statement_source(tree), 0) == done(
            tree,
            statement_source(tree).len() as int,
        ),
{
    lemma_statement_source(tree);
    lemma_program_is_parsed(statement_source(tree), tree);
}

/// Parsing gives the same tree again: where lexical tokens are parsed to a
/// tree, the tokens written back from the tree are parsed to that tree too.
pub proof fn lemma_round_trip(tokens: Seq<TokenView>, tree: Tree)
    requires
        all_lexical(tokens),
        parse_program(tokens, 0).result == Ok::<Tree, ParseErrorView>(tree),
    ensures
        parse_program(statement_source(tree), 0).result == Ok::<Tree, ParseErrorView>(tree),
{
    lemma_parsed_is_program(tokens, tree);
    lemma_derived_shape(Rule::Statement, tokens, 0, tokens.len() as int, tree);
    lemma_source_is_parsed(tree);
}

/// The tokens of an expression's tree from left to right: those of the
/// left operand, the operator, those of the right operand.
pub open spec fn in_order(tree: Tree) -> Seq<TokenView>
    decreases tree,
{
    if tree.left is Some && tree.right is Some {
        in_order(*tree.left->0) + seq![tree.value] + in_order(*tree.right->0)
    } else {
        seq![tree.value]
    }
}

/// A bracket, opening or closing.
pub open spec fn is_bracket(token: TokenView) -> bool {
    token.value == "("@ || token.value == ")"@
}

/// The tokens from `lo` up to `hi` that are no brackets, in their order.
pub open spec fn unbracketed(tokens: Seq<TokenView>, lo: int, hi: int) -> Seq<TokenView>
    decreases hi - lo,
{
    if lo >= hi {
        Seq::empty()
    } else if is_bracket(tokens[hi - 1]) {
        unbracketed(tokens, lo, hi - 1)
    } else {
        unbracketed(tokens, lo, hi - 1).push(tokens[hi - 1])
    }
}

/// The tokens that are no brackets may be taken in two stretches.
pub proof fn lemma_unbracketed_split(tokens: Seq<TokenView>, lo: int, mid: int, hi: int)
    requires
        lo <= mid <= hi,
    ensures
        unbracketed(tokens, lo, hi) == unbracketed(tokens, lo, mid) + unbracketed(tokens, mid, hi),
    decreases hi - mid,
{
    if mid < hi {
        lemma_unbracketed_split(tokens, lo, mid, hi - 1);
    }
}

/// The tree of an expression holds the tokens of the expression, brackets
/// left out, in the order of the source.
pub proof fn lemma_derived_in_order(
    rule: Rule,
    tokens: Seq<TokenView>,
    lo: int,
    hi: int,
    tree: Tree,
)
    requires
        all_lexical(tokens),
        is_expression_rule(rule),
        derives(rule, tokens, lo, hi, tree),
    ensures
        in_order(tree) == unbracketed(tokens, lo, hi),
    decreases hi - lo, rule.rank(),
{
    lemma_reserved_words();
    if rule is Element {
        if hi == lo + 1 && is_operand(tokens[lo]) && tree == Tree::leaf(tokens[lo]) {
            assert(unbracketed(tokens, lo, lo) =~= Seq::<TokenView>::empty());
        } else {
            lemma_derived_in_order(Rule::Expression, tokens, lo + 1, hi - 1, tree);
            lemma_unbracketed_split(tokens, lo, lo + 1, hi);
            assert(in_order(tree) =~= unbracketed(tokens, lo, hi));
        }
    } else if derives(rule.operand(), tokens, lo, hi, tree) {
        lemma_derived_in_order(rule.operand(), tokens, lo, hi, tree);
    } else {
        let mid = choose|mid: int|
            lo < mid < hi && #[trigger] joined(tokens, mid, rule.operator(), tree) && derives(
                rule,
                tokens,
                lo,
                mid,
                *tree.left->0,
            ) && derives(rule.operand(), tokens, mid + 1, hi, *tree.right->0);
        lemma_derived_in_order(rule, tokens, lo, mid, *tree.left->0);
        lemma_derived_in_order(rule.operand(), tokens, mid + 1, hi, *tree.right->0);
        lemma_unbracketed_split(tokens, lo, mid + 1, hi);
    }
}

/// Whether every operator of an expression's tree stands over operands that
/// bind as the levels of the grammar ask: the left one as tightly as the
/// operator or tighter, the right one tighter.
pub open spec fn nests(tree: Tree) -> bool
    decreases tree,
{
    tree.left is Some && tree.right is Some ==> {
        &&& fits(*tree.left->0, rule_of(tree.value.value))
        &&& fits(*tree.right->0, rule_of(tree.value.value).operand())
        &&& nests(*tree.left->0)
        &&& nests(*tree.right->0)
    }
}

/// Whether no token from `lo` up to `hi` is a bracket.
pub open spec fn bracket_free(tokens: Seq<TokenView>, lo: int, hi: int) -> bool {
    forall|i: int| lo <= i < hi ==> !is_bracket(#[trigger] tokens[i])
}

/// Where an expression is written without brackets, its tree nests the
/// operators by their levels alone: a product under a quotient, a quotient
/// under a difference, a difference under a sum, and operators of one level
/// to the left.
pub proof fn lemma_derived_nesting(
    rule: Rule,
    tokens: Seq<TokenView>,
    lo: int,
    hi: int,
    tree: Tree,
)
    requires
        is_expression_rule(rule),
        derives(rule, tokens, lo, hi, tree),
        bracket_free(tokens, lo, hi),
    ensures
        fits(tree, rule),
        nests(tree),
    decreases hi - lo, rule.rank(),
{
    lemma_reserved_words();
    if rule is Element {
    } else if derives(rule.operand(), tokens, lo, hi, tree) {
        lemma_derived_nesting(rule.operand(), tokens, lo, hi, tree);
    } else {
        let mid = choose|mid: int|
            lo < mid < hi && #[trigger] joined(tokens, mid, rule.operator(), tree) && derives(
                rule,
                tokens,
                lo,
                mid,
                *tree.left->0,
            ) && derives(rule.operand(), tokens, mid + 1, hi, *tree.right->0);
        lemma_derived_nesting(rule, tokens, lo, mid, *tree.left->0);
        lemma_derived_nesting(rule.operand(), tokens, mid + 1, hi, *tree.right->0);
    }
}

/// What a rule of expressions makes of lexical tokens holds them in the
/// order of the source, and nests its operators by their levels where the
/// source has no brackets.
pub proof fn lemma_parsed_expression(rule: Rule, tokens: Seq<TokenView>, pos: int, tree: Tree)
    requires
        all_lexical(tokens),
        is_expression_rule(rule),
        parse_rule(rule, tokens, pos).result == Ok::<Tree, ParseErrorView>(tree),
    ensures
        in_order(tree) == unbracketed(tokens, pos, parse_rule(rule, tokens, pos).pos),
        bracket_free(tokens, pos, parse_rule(rule, tokens, pos).pos) ==> nests(tree) && fits(
            tree,
            rule,
        ),
{
    let end = parse_rule(rule, tokens, pos).pos;
    lemma_parse_derives(rule, tokens, pos);
    lemma_derived_in_order(rule, tokens, pos, end, tree);
    if bracket_free(tokens, pos, end) {
        lemma_derived_nesting(rule, tokens, pos, end, tree);
    }
}

} // verus!
