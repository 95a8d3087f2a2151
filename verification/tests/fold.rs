use sysy_compiler::parser::ast::common::{Identifier, ResolveStatus, Type};
use sysy_compiler::parser::ast::expression::{eval_binary, eval_unary, BinaryOp, Expression, UnaryOp};
use sysy_compiler::semantic::symbol_table::{Qualifier, SymbolInfo};

fn lit(i: i32) -> Box<Expression> {
    Box::new(Expression::IntLit(i))
}

fn bin(l: Box<Expression>, op: BinaryOp, r: Box<Expression>) -> Expression {
    Expression::Binary(l, op, r)
}

#[test]
fn arithmetic_folds() {
    assert_eq!(bin(lit(2), BinaryOp::Add, lit(3)).fold_constant(), Some(5));
    assert_eq!(bin(lit(2), BinaryOp::Sub, lit(3)).fold_constant(), Some(-1));
    assert_eq!(bin(lit(6), BinaryOp::Mul, lit(7)).fold_constant(), Some(42));
    assert_eq!(bin(lit(7), BinaryOp::Div, lit(2)).fold_constant(), Some(3));
    assert_eq!(bin(lit(-7), BinaryOp::Rem, lit(2)).fold_constant(), Some(-1));
}

#[test]
fn comparisons_and_logic_fold_to_zero_or_one() {
    assert_eq!(bin(lit(1), BinaryOp::Less, lit(2)).fold_constant(), Some(1));
    assert_eq!(bin(lit(2), BinaryOp::Le, lit(1)).fold_constant(), Some(0));
    assert_eq!(bin(lit(3), BinaryOp::Eq, lit(3)).fold_constant(), Some(1));
    assert_eq!(bin(lit(3), BinaryOp::NotEq, lit(3)).fold_constant(), Some(0));
    assert_eq!(bin(lit(3), BinaryOp::Ge, lit(4)).fold_constant(), Some(0));
    assert_eq!(bin(lit(5), BinaryOp::Greater, lit(4)).fold_constant(), Some(1));
    assert_eq!(bin(lit(5), BinaryOp::LogicalAnd, lit(0)).fold_constant(), Some(0));
    assert_eq!(bin(lit(0), BinaryOp::LogicalOr, lit(-3)).fold_constant(), Some(1));
}

#[test]
fn unary_folds() {
    assert_eq!(Expression::Unary(UnaryOp::Minus, lit(5)).fold_constant(), Some(-5));
    assert_eq!(Expression::Unary(UnaryOp::Plus, lit(5)).fold_constant(), Some(5));
    assert_eq!(Expression::Unary(UnaryOp::LogicalNot, lit(0)).fold_constant(), Some(1));
    assert_eq!(Expression::Unary(UnaryOp::LogicalNot, lit(9)).fold_constant(), Some(0));
}

#[test]
fn overflow_and_division_by_zero_do_not_fold() {
    assert_eq!(bin(lit(i32::MAX), BinaryOp::Add, lit(1)).fold_constant(), None);
    assert_eq!(bin(lit(1), BinaryOp::Div, lit(0)).fold_constant(), None);
    assert_eq!(bin(lit(1), BinaryOp::Rem, lit(0)).fold_constant(), None);
    assert_eq!(bin(lit(i32::MIN), BinaryOp::Div, lit(-1)).fold_constant(), None);
    assert_eq!(Expression::Unary(UnaryOp::Minus, lit(i32::MIN)).fold_constant(), None);
    assert_eq!(eval_binary(BinaryOp::Mul, i32::MAX, 2), None);
    assert_eq!(eval_unary(UnaryOp::Minus, i32::MIN), None);
}

#[test]
fn identifiers_fold_only_to_constants() {
    let mut c = Identifier::new("c".to_string());
    c.resolve_status = ResolveStatus::Resolved(SymbolInfo {
        qualifier: Qualifier::Const,
        ty: Type::Simple("int".to_string()),
        const_val: Some(10),
    });
    assert_eq!(bin(Box::new(Expression::Ident(c)), BinaryOp::Mul, lit(2)).fold_constant(), Some(20));
    let mut v = Identifier::new("v".to_string());
    v.resolve_status = ResolveStatus::Resolved(SymbolInfo {
        qualifier: Qualifier::Var,
        ty: Type::Simple("int".to_string()),
        const_val: None,
    });
    assert_eq!(Expression::Ident(v).fold_constant(), None);
    assert_eq!(Expression::Ident(Identifier::new("u".to_string())).fold_constant(), None);
    assert_eq!(Expression::Call(Identifier::new("f".to_string()), vec![]).fold_constant(), None);
}
