use crate::parser::ast::common::{Identifier, IdentifierView, ResolveStatus, ResolveStatusView};
use crate::semantic::symbol_table::Qualifier;
use vstd::prelude::*;

verus! {

/// An expression of SysY.
#[derive(Debug)]
pub enum Expression {
    IntLit(i32),
    Ident(Identifier),
    Unary(UnaryOp, Box<Expression>),
    Binary(Box<Expression>, BinaryOp, Box<Expression>),
    /// A call: the callee's name and the arguments.
    Call(Identifier, Vec<Expression>),
}

#[derive(Debug, Clone, Copy, PartialEq, Eq)]
pub enum UnaryOp {
    Plus,
    Minus,
    LogicalNot,
}

#[derive(Debug, Clone, Copy, PartialEq, Eq)]
pub enum BinaryOp {
    // arithmetic
    Add,
    Sub,
    Mul,
    Div,
    Rem,
    // comparison
    Less,
    Le,
    Eq,
    Ge,
    Greater,
    NotEq,
    // logic
    LogicalAnd,
    LogicalOr,
}

/// The mathematical model of an [`Expression`].
pub enum ExprView {
    IntLit(i32),
    Ident(IdentifierView),
    Unary(UnaryOp, Box<ExprView>),
    Binary(Box<ExprView>, BinaryOp, Box<ExprView>),
    Call(IdentifierView, Seq<ExprView>),
}

/// The models of a list of expressions, in order.
pub open spec fn expr_seq_view(es: Seq<Expression>) -> Seq<ExprView>
    decreases es,
{
    if es.len() == 0 {
        Seq::empty()
    } else {
        proof {
            assert(decreases_to!(es => es[es.len() - 1]));
        }
        expr_seq_view(es.drop_last()).push(expr_view(es[es.len() - 1]))
    }
}

/// The model of an expression.
pub open spec fn expr_view(e: Expression) -> ExprView
    decreases e,
{
    match e {
        Expression::IntLit(i) => ExprView::IntLit(i),
        Expression::Ident(id) => ExprView::Ident(id@),
        Expression::Unary(op, b) => ExprView::Unary(op, Box::new(expr_view(*b))),
        Expression::Binary(l, op, r) => ExprView::Binary(
            Box::new(expr_view(*l)),
            op,
            Box::new(expr_view(*r)),
        ),
        Expression::Call(id, args) => {
            proof {
                assert(decreases_to!(args => args@));
            }
            ExprView::Call(id@, expr_seq_view(args@))
        },
    }
}

/// The model list has one entry per expression, each its model.
pub proof fn lemma_expr_seq_view(es: Seq<Expression>)
    ensures
        expr_seq_view(es).len() == es.len(),
        forall|j: int| 0 <= j < es.len() ==> #[trigger] expr_seq_view(es)[j] == expr_view(es[j]),
    decreases es.len(),
{
    if es.len() > 0 {
        lemma_expr_seq_view(es.drop_last());
    }
}

/// The truth value of an integer: non-zero is true.
pub open spec fn truthy(i: i32) -> bool {
    i != 0
}

/// An integer for a truth value: 1 or 0.
pub open spec fn bool_int(b: bool) -> i32 {
    if b { 1 } else { 0 }
}

/// The value of `l op r` on 32-bit integers; `None` where Rust's own
/// operator would overflow or divide by zero.
pub open spec fn spec_binary(op: BinaryOp, l: i32, r: i32) -> Option<i32> {
    match op {
        BinaryOp::Add => l.checked_add(r),
        BinaryOp::Sub => l.checked_sub(r),
        BinaryOp::Mul => l.checked_mul(r),
        BinaryOp::Div => l.checked_div(r),
        BinaryOp::Rem => l.checked_rem(r),
        BinaryOp::Less => Some(bool_int(l < r)),
        BinaryOp::Le => Some(bool_int(l <= r)),
        BinaryOp::Eq => Some(bool_int(l == r)),
        BinaryOp::Ge => Some(bool_int(l >= r)),
        BinaryOp::Greater => Some(bool_int(l > r)),
        BinaryOp::NotEq => Some(bool_int(l != r)),
        BinaryOp::LogicalAnd => Some(bool_int(truthy(l) && truthy(r))),
        BinaryOp::LogicalOr => Some(bool_int(truthy(l) || truthy(r))),
    }
}

/// The value of `op v`; `None` where negation overflows.
pub open spec fn spec_unary(op: UnaryOp, v: i32) -> Option<i32> {
    match op {
        UnaryOp::Plus => Some(v),
        UnaryOp::Minus => 0i32.checked_sub(v),
        UnaryOp::LogicalNot => Some(bool_int(v == 0)),
    }
}

/// The compile-time value of an expression: literals, and identifiers
/// resolved to constants that hold a value, combined by the operators.
/// `None` for anything else (a variable, an unresolved name, a call),
/// and where an operation overflows or divides by zero.
pub open spec fn spec_fold(e: ExprView) -> Option<i32>
    decreases e,
{
    match e {
        ExprView::IntLit(i) => Some(i),
        ExprView::Ident(id) => match id.status {
            ResolveStatusView::Resolved(info) => if info.qualifier == Qualifier::Const {
                info.const_val
            } else {
                None
            },
            ResolveStatusView::Unresolved => None,
        },
        ExprView::Unary(op, b) => match spec_fold(*b) {
            Some(v) => spec_unary(op, v),
            None => None,
        },
        ExprView::Binary(l, op, r) => match (spec_fold(*l), spec_fold(*r)) {
            (Some(a), Some(b)) => spec_binary(op, a, b),
            _ => None,
        },
        ExprView::Call(_, _) => None,
    }
}

/// Applies a binary operator on two constants.
pub fn eval_binary(op: BinaryOp, l: i32, r: i32) -> (res: Option<i32>)
    ensures
        res == spec_binary(op, l, r),
{
    match op {
        BinaryOp::Add => l.checked_add(r),
        BinaryOp::Sub => l.checked_sub(r),
        BinaryOp::Mul => l.checked_mul(r),
        BinaryOp::Div => l.checked_div(r),
        BinaryOp::Rem => l.checked_rem(r),
        BinaryOp::Less => Some(if l < r { 1 } else { 0 }),
        BinaryOp::Le => Some(if l <= r { 1 } else { 0 }),
        BinaryOp::Eq => Some(if l == r { 1 } else { 0 }),
        BinaryOp::Ge => Some(if l >= r { 1 } else { 0 }),
        BinaryOp::Greater => Some(if l > r { 1 } else { 0 }),
        BinaryOp::NotEq => Some(if l != r { 1 } else { 0 }),
        BinaryOp::LogicalAnd => Some(if l != 0 && r != 0 { 1 } else { 0 }),
        BinaryOp::LogicalOr => Some(if l != 0 || r != 0 { 1 } else { 0 }),
    }
}

/// Applies a unary operator on a constant.
pub fn eval_unary(op: UnaryOp, v: i32) -> (res: Option<i32>)
    ensures
        res == spec_unary(op, v),
{
    match op {
        UnaryOp::Plus => Some(v),
        UnaryOp::Minus => 0i32.checked_sub(v),
        UnaryOp::LogicalNot => Some(if v == 0 { 1 } else { 0 }),
    }
}

impl Expression {
    /// The compile-time value of the expression, where it has one.
    pub fn fold_constant(&self) -> (r: Option<i32>)
        ensures
            r == spec_fold(self@),
        decreases self,
    {
        match self {
            Expression::IntLit(i) => Some(*i),
            Expression::Ident(id) => match &id.resolve_status {
                ResolveStatus::Resolved(info) => if info.is_const_val() {
                    info.const_val
                } else {
                    None
                },
                ResolveStatus::Unresolved => None,
            },
            Expression::Unary(op, b) => match b.fold_constant() {
                Some(v) => eval_unary(*op, v),
                None => None,
            },
            Expression::Binary(l, op, r) => {
                let a = l.fold_constant();
                let b = r.fold_constant();
                match (a, b) {
                    (Some(a), Some(b)) => eval_binary(*op, a, b),
                    _ => None,
                }
            },
            Expression::Call(_, _) => None,
        }
    }
}

/// The expression `l op r` written with two literals.
pub open spec fn literal_binary(l: i32, op: BinaryOp, r: i32) -> ExprView {
    ExprView::Binary(Box::new(ExprView::IntLit(l)), op, Box::new(ExprView::IntLit(r)))
}

/// Folding `l op r` on two literals gives what the operator means on
/// integers: each comparison gives 1 where it holds and 0 where it does
/// not, `&&` and `||` give the truth of both or either operand being
/// non-zero, `+ - *` give the exact result where it fits in 32 bits and
/// nothing where it does not, and `/ %` give nothing for a zero divisor
/// or for `i32::MIN / -1`, and the plain quotient and remainder on
/// non-negative operands.
pub proof fn law_fold_binary_meaning(l: i32, r: i32)
    ensures
        spec_fold(literal_binary(l, BinaryOp::Less, r)) == Some(if l < r { 1i32 } else { 0i32 }),
        spec_fold(literal_binary(l, BinaryOp::Le, r)) == Some(if l <= r { 1i32 } else { 0i32 }),
        spec_fold(literal_binary(l, BinaryOp::Eq, r)) == Some(if l == r { 1i32 } else { 0i32 }),
        spec_fold(literal_binary(l, BinaryOp::Ge, r)) == Some(if l >= r { 1i32 } else { 0i32 }),
        spec_fold(literal_binary(l, BinaryOp::Greater, r)) == Some(
            if l > r { 1i32 } else { 0i32 },
        ),
        spec_fold(literal_binary(l, BinaryOp::NotEq, r)) == Some(
            if l != r { 1i32 } else { 0i32 },
        ),
        spec_fold(literal_binary(l, BinaryOp::LogicalAnd, r)) == Some(
            if l != 0 && r != 0 { 1i32 } else { 0i32 },
        ),
        spec_fold(literal_binary(l, BinaryOp::LogicalOr, r)) == Some(
            if l != 0 || r != 0 { 1i32 } else { 0i32 },
        ),
        i32::MIN <= l + r <= i32::MAX ==> spec_fold(literal_binary(l, BinaryOp::Add, r)) == Some(
            (l + r) as i32,
        ),
        !(i32::MIN <= l + r <= i32::MAX) ==> spec_fold(literal_binary(l, BinaryOp::Add, r))
            is None,
        i32::MIN <= l - r <= i32::MAX ==> spec_fold(literal_binary(l, BinaryOp::Sub, r)) == Some(
            (l - r) as i32,
        ),
        !(i32::MIN <= l - r <= i32::MAX) ==> spec_fold(literal_binary(l, BinaryOp::Sub, r))
            is None,
        i32::MIN <= l * r <= i32::MAX ==> spec_fold(literal_binary(l, BinaryOp::Mul, r)) == Some(
            (l * r) as i32,
        ),
        !(i32::MIN <= l * r <= i32::MAX) ==> spec_fold(literal_binary(l, BinaryOp::Mul, r))
            is None,
        r == 0 ==> spec_fold(literal_binary(l, BinaryOp::Div, r)) is None,
        r == 0 ==> spec_fold(literal_binary(l, BinaryOp::Rem, r)) is None,
        l == i32::MIN && r == -1 ==> spec_fold(literal_binary(l, BinaryOp::Div, r)) is None,
        l == i32::MIN && r == -1 ==> spec_fold(literal_binary(l, BinaryOp::Rem, r)) is None,
        0 <= l && 0 < r ==> spec_fold(literal_binary(l, BinaryOp::Div, r)) == Some(
            (l / r) as i32,
        ),
        0 <= l && 0 < r ==> spec_fold(literal_binary(l, BinaryOp::Rem, r)) == Some(
            (l % r) as i32,
        ),
{
    reveal_with_fuel(spec_fold, 2);
    if 0 <= l && 0 < r {
        let (a, d): (int, int) = (l as int, r as int);
        assert(0 <= a % d < d) by (nonlinear_arith)
            requires
                0 < d,
        ;
        assert(0 <= a / d <= a) by (nonlinear_arith)
            requires
                0 <= a,
                0 < d,
        ;
        if l == 0 {
            assert(a % d == 0 && a / d == 0) by (nonlinear_arith)
                requires
                    a == 0,
                    0 < d,
            ;
        }
    }
}

/// Folding `-v`, `+v` and `!v` on a literal: the negation where it fits,
/// the value itself, and 1 exactly where the value is zero.
pub proof fn law_fold_unary_meaning(v: i32)
    ensures
        spec_fold(ExprView::Unary(UnaryOp::Plus, Box::new(ExprView::IntLit(v)))) == Some(v),
        v != i32::MIN ==> spec_fold(ExprView::Unary(UnaryOp::Minus, Box::new(ExprView::IntLit(v))))
            == Some((-v) as i32),
        v == i32::MIN ==> spec_fold(
            ExprView::Unary(UnaryOp::Minus, Box::new(ExprView::IntLit(v))),
        ) is None,
        spec_fold(ExprView::Unary(UnaryOp::LogicalNot, Box::new(ExprView::IntLit(v)))) == Some(
            if v == 0 { 1i32 } else { 0i32 },
        ),
{
    reveal_with_fuel(spec_fold, 2);
}

impl View for Expression {
    type V = ExprView;

    open spec fn view(&self) -> ExprView {
        expr_view(*self)
    }
}

} // verus!
