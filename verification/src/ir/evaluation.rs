use crate::ir::program::{FunctionData, Function, Value, ValueKind, const_value, ir_binary_eval, kind_ok};
use crate::ir::program_builder::{SymbolValueMap, denotes, koopa_binop};
use crate::parser::ast::expression::{BinaryOp, ExprView, UnaryOp, spec_binary, spec_fold};
use vstd::prelude::*;

verus! {

/// An expression made of literals, named constants, unary operators and
/// the binary operators other than `&&` and `||`.
pub open spec fn arith_only(e: ExprView) -> bool
    decreases e,
{
    match e {
        ExprView::IntLit(_) => true,
        ExprView::Ident(_) => true,
        ExprView::Unary(_, b) => arith_only(*b),
        ExprView::Binary(l, op, r) => op != BinaryOp::LogicalAnd && op != BinaryOp::LogicalOr
            && arith_only(*l) && arith_only(*r),
        ExprView::Call(_, _) => false,
    }
}

/// The Koopa instruction that a SysY operator is lowered to has that
/// operator's meaning: `<`, `<=`, `==`, `>=`, `>` and `!=` give 1 exactly
/// where the comparison holds and 0 elsewhere, `+ - *` give the exact
/// result where it fits in 32 bits, `/` and `%` give nothing for a zero
/// divisor and the plain quotient and remainder on non-negative operands.
pub proof fn law_koopa_operator_meaning(l: i32, r: i32)
    ensures
        ir_binary_eval(koopa_binop(BinaryOp::Less), l, r) == Some(if l < r { 1i32 } else { 0i32 }),
        ir_binary_eval(koopa_binop(BinaryOp::Le), l, r) == Some(if l <= r { 1i32 } else { 0i32 }),
        ir_binary_eval(koopa_binop(BinaryOp::Eq), l, r) == Some(if l == r { 1i32 } else { 0i32 }),
        ir_binary_eval(koopa_binop(BinaryOp::Ge), l, r) == Some(if l >= r { 1i32 } else { 0i32 }),
        ir_binary_eval(koopa_binop(BinaryOp::Greater), l, r) == Some(
            if l > r { 1i32 } else { 0i32 },
        ),
        ir_binary_eval(koopa_binop(BinaryOp::NotEq), l, r) == Some(
            if l != r { 1i32 } else { 0i32 },
        ),
        i32::MIN <= l + r <= i32::MAX ==> ir_binary_eval(koopa_binop(BinaryOp::Add), l, r) == Some(
            (l + r) as i32,
        ),
        i32::MIN <= l - r <= i32::MAX ==> ir_binary_eval(koopa_binop(BinaryOp::Sub), l, r) == Some(
            (l - r) as i32,
        ),
        i32::MIN <= l * r <= i32::MAX ==> ir_binary_eval(koopa_binop(BinaryOp::Mul), l, r) == Some(
            (l * r) as i32,
        ),
        r == 0 ==> ir_binary_eval(koopa_binop(BinaryOp::Div), l, r) is None,
        r == 0 ==> ir_binary_eval(koopa_binop(BinaryOp::Rem), l, r) is None,
        0 <= l && 0 < r ==> ir_binary_eval(koopa_binop(BinaryOp::Div), l, r) == Some(
            (l / r) as i32,
        ),
        0 <= l && 0 < r ==> ir_binary_eval(koopa_binop(BinaryOp::Rem), l, r) == Some(
            (l % r) as i32,
        ),
{
    if 0 <= l && 0 < r {
        let (a, d): (int, int) = (l as int, r as int);
        assert(0 <= a % d < d) by (nonlinear_arith)
            requires
                0 < d,
        ;
        assert(0 <= a / d <= a) by (nonlinear_arith)
            requires
                0 <= a,
                0 < d,
        ;
        if l == 0 {
            assert(a % d == 0 && a / d == 0) by (nonlinear_arith)
                requires
                    a == 0,
                    0 < d,
            ;
        }
    }
}

/// Wherever folding `l op r` gives a value, the Koopa instruction that
/// `op` is lowered to computes the same value on the same operands, for
/// every operator other than `&&` and `||`.
pub proof fn law_koopa_operator_agrees_with_fold(op: BinaryOp, l: i32, r: i32)
    requires
        op != BinaryOp::LogicalAnd,
        op != BinaryOp::LogicalOr,
        spec_binary(op, l, r) is Some,
    ensures
        ir_binary_eval(koopa_binop(op), l, r) == spec_binary(op, l, r),
{
}

/// A value that denotes an expression made of literals, constants and the
/// operators other than `&&` and `||` computes, by the meaning of the
/// Koopa instructions, the expression's compile-time value, wherever that
/// value exists: the lowering of `1 < 2` computes 1, that of `2 > 1`
/// computes 1, that of `-3` computes -3.
pub proof fn law_denoted_value_computes_fold(
    fd: FunctionData,
    svm: SymbolValueMap<Value, Function>,
    v: Value,
    e: ExprView,
    g: nat,
    f: nat,
)
    requires
        fd.wf(g, f),
        denotes(fd, svm, v, e),
        arith_only(e),
        spec_fold(e) is Some,
    ensures
        const_value(fd, v->Local_0 as nat) == spec_fold(e),
    decreases e,
{
    reveal_with_fuel(denotes, 2);
    let k = v->Local_0;
    assert(kind_ok(fd.values@[k as int], k as nat, g, fd.bbs@.len(), f));
    match e {
        ExprView::IntLit(i) => {
            assert(const_value(fd, k as nat) == Some(i));
        },
        ExprView::Ident(id) => {
            assert(const_value(fd, k as nat) == spec_fold(e));
        },
        ExprView::Unary(op, b) => {
            if op == UnaryOp::Plus {
                law_denoted_value_computes_fold(fd, svm, v, *b, g, f);
            } else {
                if let ValueKind::Binary(kop, z, x) = fd.values@[k as int] {
                    law_denoted_value_computes_fold(fd, svm, x, *b, g, f);
                    assert(const_value(fd, z->Local_0 as nat) == Some(0i32));
                    assert(const_value(fd, k as nat) == spec_fold(e));
                }
            }
        },
        ExprView::Binary(l, op, r) => {
            if let ValueKind::Binary(kop, x, y) = fd.values@[k as int] {
                law_denoted_value_computes_fold(fd, svm, x, *l, g, f);
                law_denoted_value_computes_fold(fd, svm, y, *r, g, f);
                law_koopa_operator_agrees_with_fold(op, spec_fold(*l)->0, spec_fold(*r)->0);
                assert(const_value(fd, k as nat) == spec_fold(e));
            }
        },
        ExprView::Call(_, _) => {},
    }
}

} // verus!
