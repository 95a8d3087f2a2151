use sysy_compiler::parser::ast::common::{Identifier, ResolveStatus, Type};
use sysy_compiler::parser::ast::compile_unit::CompileUnit;
use sysy_compiler::parser::ast::expression::{BinaryOp, Expression};
use sysy_compiler::parser::ast::item::{FuncDef, Item};
use sysy_compiler::parser::ast::statement::Statement;
use sysy_compiler::semantic::check::{SemanticChecker, SemanticError};
use sysy_compiler::semantic::symbol_table::{Qualifier, SymbolTableError};

fn int_type() -> Type {
    Type::Simple("int".to_string())
}

fn id(n: &str) -> Identifier {
    Identifier::new(n.to_string())
}

fn var(n: &str) -> Expression {
    Expression::Ident(id(n))
}

fn main_with(body: Vec<Statement>) -> CompileUnit {
    CompileUnit {
        items: vec![Item::FuncDef(FuncDef { ident: id("main"), fparams: vec![], return_type: int_type(), body })],
    }
}

fn check(cu: &mut CompileUnit) -> Result<(), SemanticError> {
    SemanticChecker::new().check(cu)
}

#[test]
fn resolves_every_identifier() {
    let mut cu = main_with(vec![
        Statement::ConstDecl(vec![(int_type(), id("c"), Expression::Binary(Box::new(Expression::IntLit(2)), BinaryOp::Mul, Box::new(Expression::IntLit(21))))]),
        Statement::VarDecl(vec![(int_type(), id("a"), Some(var("c")))]),
        Statement::Assign(id("a"), Expression::Binary(Box::new(var("a")), BinaryOp::Add, Box::new(Expression::IntLit(1)))),
        Statement::Return(var("a")),
    ]);
    assert!(check(&mut cu).is_ok());
    let f = match &cu.items[0] {
        Item::FuncDef(f) => f,
        _ => panic!("not a function"),
    };
    assert!(matches!(f.ident.resolve_status, ResolveStatus::Resolved(_)));
    match &f.body[0] {
        Statement::ConstDecl(v) => match &v[0].1.resolve_status {
            ResolveStatus::Resolved(info) => {
                assert_eq!(info.qualifier, Qualifier::Const);
                assert_eq!(info.const_val, Some(42));
            },
            ResolveStatus::Unresolved => panic!("unresolved"),
        },
        _ => panic!("not a constant declaration"),
    }
    match &f.body[1] {
        Statement::VarDecl(v) => {
            assert!(matches!(v[0].1.resolve_status, ResolveStatus::Resolved(_)));
            match &v[0].2 {
                Some(Expression::Ident(c)) => match &c.resolve_status {
                    ResolveStatus::Resolved(info) => assert_eq!(info.const_val, Some(42)),
                    ResolveStatus::Unresolved => panic!("unresolved"),
                },
                _ => panic!("unexpected initialiser"),
            }
        },
        _ => panic!("not a variable declaration"),
    }
    match &f.body[3] {
        Statement::Return(Expression::Ident(a)) => match &a.resolve_status {
            ResolveStatus::Resolved(info) => assert_eq!(info.qualifier, Qualifier::Var),
            ResolveStatus::Unresolved => panic!("unresolved"),
        },
        _ => panic!("not a return"),
    }
}

#[test]
fn undefined_name_is_reported() {
    let mut cu = main_with(vec![Statement::Return(var("x"))]);
    match check(&mut cu) {
        Err(SemanticError::SymbolTableError(SymbolTableError::SymbolNotFound(n))) => assert_eq!(n, "x"),
        other => panic!("unexpected {:?}", other),
    }
}

#[test]
fn break_and_continue_outside_while_are_refused() {
    let mut cu = main_with(vec![Statement::Break]);
    assert!(matches!(check(&mut cu), Err(SemanticError::BreakError)));
    let mut cu = main_with(vec![Statement::Continue]);
    assert!(matches!(check(&mut cu), Err(SemanticError::ContinueError)));
    let mut cu = main_with(vec![Statement::While(Expression::IntLit(1), Box::new(Statement::Break))]);
    assert!(check(&mut cu).is_ok());
}

#[test]
fn assigning_a_constant_is_refused() {
    let mut cu = main_with(vec![
        Statement::ConstDecl(vec![(int_type(), id("c"), Expression::IntLit(1))]),
        Statement::Assign(id("c"), Expression::IntLit(2)),
    ]);
    assert!(matches!(check(&mut cu), Err(SemanticError::ConstValueError)));
}

#[test]
fn argument_count_is_checked() {
    let mut cu = main_with(vec![Statement::Expression(Some(Expression::Call(id("putint"), vec![])))]);
    assert!(matches!(check(&mut cu), Err(SemanticError::ArgumentCountError(1, 0))));
    let mut cu = main_with(vec![Statement::Expression(Some(Expression::Call(id("putint"), vec![Expression::IntLit(3)])))]);
    assert!(check(&mut cu).is_ok());
}

#[test]
fn redefinition_in_one_scope_is_refused_but_shadowing_is_not() {
    let mut cu = main_with(vec![
        Statement::VarDecl(vec![(int_type(), id("a"), None)]),
        Statement::VarDecl(vec![(int_type(), id("a"), None)]),
    ]);
    match check(&mut cu) {
        Err(SemanticError::SymbolTableError(SymbolTableError::SymbolRedefined(n))) => assert_eq!(n, "a"),
        other => panic!("unexpected {:?}", other),
    }
    let mut cu = main_with(vec![
        Statement::VarDecl(vec![(int_type(), id("a"), None)]),
        Statement::Block(vec![Box::new(Statement::VarDecl(vec![(int_type(), id("a"), None)]))]),
    ]);
    assert!(check(&mut cu).is_ok());
}

#[test]
fn functions_may_call_themselves_and_see_their_parameters() {
    let f = FuncDef {
        ident: id("f"),
        fparams: vec![(id("n"), int_type())],
        return_type: int_type(),
        body: vec![Statement::Return(Expression::Call(id("f"), vec![var("n")]))],
    };
    let mut cu = CompileUnit { items: vec![Item::FuncDef(f)] };
    assert!(check(&mut cu).is_ok());
}

#[test]
fn loop_depth_is_restored_after_a_failing_loop_body() {
    let mut checker = SemanticChecker::new();
    let mut failing = main_with(vec![
        Statement::While(Expression::IntLit(1), Box::new(Statement::Assign(id("undeclared"), Expression::IntLit(1)))),
        Statement::Return(Expression::IntLit(0)),
    ]);
    assert!(checker.check(&mut failing).is_err());
    let mut stray_break = main_with(vec![Statement::Break, Statement::Return(Expression::IntLit(0))]);
    assert!(matches!(checker.check(&mut stray_break), Err(SemanticError::BreakError)));
}
