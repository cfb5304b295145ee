//! The evaluator: reduces an arithmetic syntax tree to an unsigned number.

use vstd::prelude::*;
use vstd::string::StringExecFns;
use crate::grammar::Tree;
use crate::parser::{Expected, AST};
use crate::scanner::{Token, TokenType, TokenView};
use crate::text::{decimal_text, decimal_value, format_decimal, is_decimal, parse_decimal};

verus! {

/// Why a tree has no value.
pub enum EvalError {
    DivByZero { numerator: u32 },
    UndeclaredVariable { variable: String },
}

/// An evaluation error as contracts speak of it.
pub enum EvalErrorView {
    DivByZero { numerator: nat },
    UndeclaredVariable { variable: Seq<char> },
}

impl View for EvalError {
    type V = EvalErrorView;

    open spec fn view(&self) -> EvalErrorView {
        match self {
            EvalError::DivByZero { numerator } => EvalErrorView::DivByZero {
                numerator: *numerator as nat,
            },
            EvalError::UndeclaredVariable { variable } => EvalErrorView::UndeclaredVariable {
                variable: variable@,
            },
        }
    }
}

impl EvalErrorView {
    /// The message an evaluation error is reported with.
    pub open spec fn message(self) -> Seq<char> {
        match self {
            EvalErrorView::DivByZero { numerator } => "divide by zero at "@ + decimal_text(
                numerator,
            ) + " / 0"@,
            EvalErrorView::UndeclaredVariable { variable } => "use of undeclared variable \""@
                + variable + "\""@,
        }
    }
}

impl EvalError {
    /// The message the error is reported with.
    pub fn to_string(&self) -> (r: String)
        ensures
            r@ == self@.message(),
    {
        match self {
            EvalError::DivByZero { numerator } => {
                let mut s = "divide by zero at ".to_owned();
                s.append(format_decimal(*numerator as u64).as_str());
                s.append(" / 0");
                s
            },
            EvalError::UndeclaredVariable { variable } => {
                let mut s = "use of undeclared variable \"".to_owned();
                s.append(variable.as_str());
                s.append("\"");
                s
            },
        }
    }
}

/// The value of a tree, or the reason it has none.
pub type Value = Result<nat, EvalErrorView>;

/// What an operator makes of two numbers. Subtraction stops at zero: a
/// difference that would be negative is 0. Division by zero is an error that
/// carries the numerator. A text that is none of the four operators names
/// nothing that is declared.
pub open spec fn operate(operator: Seq<char>, one: nat, two: nat) -> Value {
    if operator == "+"@ {
        Ok(one + two)
    } else if operator == "-"@ {
        if one >= two {
            Ok((one - two) as nat)
        } else {
            Ok(0)
        }
    } else if operator == "*"@ {
        Ok(one * two)
    } else if operator == "/"@ {
        if two == 0 {
            Err(EvalErrorView::DivByZero { numerator: one })
        } else {
            Ok(one / two)
        }
    } else {
        Err(EvalErrorView::UndeclaredVariable { variable: operator })
    }
}

/// The value of a tree. A node without a left and a right subtree is a
/// leaf: a number stands for itself, anything else is a variable, and no
/// variable is declared. A node with both is an operator applied to the
/// values of its subtrees, the left one first. Any other node names nothing
/// that is declared.
pub open spec fn value_of(tree: Tree) -> Value
    decreases tree,
{
    match (tree.left, tree.right) {
        (None, None) => if tree.value.kind == TokenType::Number {
            Ok(decimal_value(tree.value.value))
        } else {
            Err(EvalErrorView::UndeclaredVariable { variable: tree.value.value })
        },
        (Some(left), Some(right)) => match value_of(*left) {
            Ok(one) => match value_of(*right) {
                Ok(two) => operate(tree.value.value, one, two),
                Err(e) => Err(e),
            },
            Err(e) => Err(e),
        },
        _ => Err(EvalErrorView::UndeclaredVariable { variable: tree.value.value }),
    }
}

/// Whether an operator's result on two numbers fits in 32 bits.
pub open spec fn operable(operator: Seq<char>, one: nat, two: nat) -> bool {
    match operate(operator, one, two) {
        Ok(value) => value <= u32::MAX,
        Err(_) => true,
    }
}

/// Whether a tree can be evaluated in 32 bits: every number that is read is
/// a decimal numeral, and it and every result that is computed fit.
pub open spec fn evaluable(tree: Tree) -> bool
    decreases tree,
{
    match (tree.left, tree.right) {
        (None, None) => tree.value.kind == TokenType::Number ==> is_decimal(tree.value.value)
            && decimal_value(tree.value.value) <= u32::MAX,
        (Some(left), Some(right)) => {
            &&& evaluable(*left)
            &&& value_of(*left) matches Ok(one) ==> {
                &&& evaluable(*right)
                &&& value_of(*right) matches Ok(two) ==> operable(tree.value.value, one, two)
            }
        },
        _ => true,
    }
}

/// Whether an evaluation ended with the value, or the error, of the model.
pub open spec fn evaluated_as(r: Result<u32, EvalError>, value: Value) -> bool {
    match r {
        Ok(number) => value == Ok::<nat, EvalErrorView>(number as nat),
        Err(e) => value == Err::<nat, EvalErrorView>(e@),
    }
}

/// Evaluates a tree: gives its value, or the reason it has none. An
/// identifier on its own is an undeclared variable.
pub fn eval(ast: AST) -> (r: Result<u32, EvalError>)
    requires
        evaluable(ast@),
    ensures
        evaluated_as(r, value_of(ast@)),
        ast@.left is None && ast@.right is None && ast@.value.kind == TokenType::Identifier
            ==> (r matches Err(EvalError::UndeclaredVariable { variable }) && variable@
            == ast@.value.value),
    decreases ast,
{
    let AST { value, left, right, .. } = ast;
    match (left, right) {
        (None, None) => {
            if value.kind == TokenType::Number {
                Ok(parse_decimal(value.value.as_str()))
            } else {
                Err(EvalError::UndeclaredVariable { variable: value.value })
            }
        },
        (Some(left), Some(right)) => {
            let one = match eval(*left) {
                Ok(one) => one,
                Err(e) => {
                    return Err(e);
                },
            };
            let two = match eval(*right) {
                Ok(two) => two,
                Err(e) => {
                    return Err(e);
                },
            };
            eval_op(value, one, two)
        },
        _ => Err(EvalError::UndeclaredVariable { variable: value.value }),
    }
}

/// Applies the operator that `op` names to two numbers. A difference below
/// zero is 0; a division by zero is an error that carries the numerator.
pub fn eval_op(op: Token, operand_one: u32, operand_two: u32) -> (r: Result<u32, EvalError>)
    requires
        operable(op@.value, operand_one as nat, operand_two as nat),
    ensures
        evaluated_as(r, operate(op@.value, operand_one as nat, operand_two as nat)),
        op@.value == "-"@ && operand_one < operand_two ==> (r matches Ok(number) && number == 0),
        op@.value == "/"@ && operand_two == 0 ==> (r matches Err(
            EvalError::DivByZero { numerator },
        ) && numerator == operand_one),
{
    proof {
        lemma_operators_differ();
    }
    if Expected::Value("+").check(&op) {
        Ok(operand_one + operand_two)
    } else if Expected::Value("-").check(&op) {
        if operand_one >= operand_two {
            Ok(operand_one - operand_two)
        } else {
            Ok(0)
        }
    } else if Expected::Value("*").check(&op) {
        Ok(operand_one * operand_two)
    } else if Expected::Value("/").check(&op) {
        match operand_two {
            0 => Err(EvalError::DivByZero { numerator: operand_one }),
            divisor => Ok(operand_one / divisor),
        }
    } else {
        Err(EvalError::UndeclaredVariable { variable: op.value })
    }
}

/// The four operators are four different texts.
pub proof fn lemma_operators_differ()
    ensures
        "+"@ != "-"@,
        "+"@ != "*"@,
        "+"@ != "/"@,
        "-"@ != "*"@,
        "-"@ != "/"@,
        "*"@ != "/"@,
{
    reveal_strlit("+");
    reveal_strlit("-");
    reveal_strlit("*");
    reveal_strlit("/");
    assert("-"@[0] == '-');
    assert("*"@[0] == '*');
    assert("/"@[0] == '/');
}

/// Subtraction stops at zero: where the left operand is the smaller one, the
/// difference is 0.
pub proof fn lemma_subtraction_truncates(
    minus: TokenView,
    left: Tree,
    right: Tree,
    one: nat,
    two: nat,
)
    requires
        minus.value == "-"@,
        value_of(left) == Ok::<nat, EvalErrorView>(one),
        value_of(right) == Ok::<nat, EvalErrorView>(two),
        one < two,
    ensures
        value_of(Tree::binary(minus, left, right)) == Ok::<nat, EvalErrorView>(0),
{
    lemma_operators_differ();
}

/// Division by zero is an error, and the error carries the numerator.
pub proof fn lemma_division_by_zero(slash: TokenView, left: Tree, right: Tree, one: nat)
    requires
        slash.value == "/"@,
        value_of(left) == Ok::<nat, EvalErrorView>(one),
        value_of(right) == Ok::<nat, EvalErrorView>(0),
    ensures
        value_of(Tree::binary(slash, left, right)) == Err::<nat, EvalErrorView>(
            EvalErrorView::DivByZero { numerator: one },
        ),
{
    lemma_operators_differ();
}

/// An identifier on its own is an undeclared variable, reported by its name.
pub proof fn lemma_identifier_is_undeclared(name: TokenView)
    requires
        name.kind == TokenType::Identifier,
    ensures
        value_of(Tree::leaf(name)) == Err::<nat, EvalErrorView>(
            EvalErrorView::UndeclaredVariable { variable: name.value },
        ),
{
}

} // verus!
